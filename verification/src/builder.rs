//! The flash builder: turns arbitrary write requests into an ordered,
//! sector-aligned programming plan.
//!
//! The model of a request set is the relation `model_pair`: which byte
//! values are requested at which addresses. `build` succeeds exactly when
//! that relation is a partial function (no conflicting overlap) lying
//! inside the flash regions, and its output is pinned byte for byte, so
//! it depends only on the set of requests, not on their order.

use vstd::prelude::*;

use crate::algorithm::FlashAlgorithm;
use crate::errors::BuildError;
use crate::memory::MemoryMap;

verus! {

/// A caller's wish: place `data` at `address`.
#[derive(Clone, Debug)]
pub struct WriteRequest {
    pub address: u32,
    pub data: Vec<u8>,
}

impl View for WriteRequest {
    type V = (u32, Seq<u8>);

    open spec fn view(&self) -> (u32, Seq<u8>) {
        (self.address, self.data@)
    }
}

/// One programmable page of a sector: `data` is exactly one page,
/// erase-fill padded outside the requested ranges.
#[derive(Clone, Debug)]
pub struct FlashPage {
    pub address: u32,
    pub data: Vec<u8>,
}

impl View for FlashPage {
    type V = (u32, Seq<u8>);

    open spec fn view(&self) -> (u32, Seq<u8>) {
        (self.address, self.data@)
    }
}

/// One touched sector of the plan, with its touched pages in ascending
/// address order.
#[derive(Clone, Debug)]
pub struct FlashSector {
    pub address: u32,
    pub needs_erase: bool,
    pub pages: Vec<FlashPage>,
}

impl View for FlashSector {
    type V = (u32, bool, Seq<(u32, Seq<u8>)>);

    open spec fn view(&self) -> (u32, bool, Seq<(u32, Seq<u8>)>) {
        (self.address, self.needs_erase, self.pages@.map_values(|p: FlashPage| p@))
    }
}

/// What an erased flash cell reads as; partial pages are padded with it.
pub const ERASED_BYTE: u8 = 0xFF;

/// Whether the request covers the address.
pub open spec fn req_covers(r: (u32, Seq<u8>), a: int) -> bool {
    r.0 <= a < r.0 + r.1.len()
}

/// The byte the request asks for at the address.
pub open spec fn req_byte(r: (u32, Seq<u8>), a: int) -> u8 {
    r.1[a - r.0]
}

/// Whether some request in the set asks for byte `b` at address `a`.
pub open spec fn model_pair(rs: Seq<(u32, Seq<u8>)>, a: int, b: u8) -> bool {
    exists|r: (u32, Seq<u8>)| #[trigger] rs.contains(r) && req_covers(r, a) && req_byte(r, a) == b
}

/// Whether any request covers the address.
pub open spec fn covers(rs: Seq<(u32, Seq<u8>)>, a: int) -> bool {
    exists|b: u8| model_pair(rs, a, b)
}

/// Whether two requests disagree on the byte at the address.
pub open spec fn conflict_at(rs: Seq<(u32, Seq<u8>)>, a: int) -> bool {
    exists|b1: u8, b2: u8| model_pair(rs, a, b1) && model_pair(rs, a, b2) && b1 != b2
}

/// No two requests disagree anywhere.
pub open spec fn conflict_free(rs: Seq<(u32, Seq<u8>)>) -> bool {
    forall|a: int| !conflict_at(rs, a)
}

/// The byte requested at a covered address; well defined when the set is
/// conflict free.
pub open spec fn byte_at(rs: Seq<(u32, Seq<u8>)>, a: int) -> u8 {
    choose|b: u8| model_pair(rs, a, b)
}

/// What the plan must place at an address inside a touched page.
pub open spec fn plan_byte(rs: Seq<(u32, Seq<u8>)>, a: int) -> u8 {
    if covers(rs, a) {
        byte_at(rs, a)
    } else {
        ERASED_BYTE
    }
}

/// Every covered address lies in a flash region of the map.
pub open spec fn flash_all(rs: Seq<(u32, Seq<u8>)>, map: MemoryMap) -> bool {
    forall|a: int| #[trigger] covers(rs, a) ==> map.spec_in_flash(a)
}

/// The greatest multiple of `k` that is at most `a`.
pub open spec fn align_down(a: int, k: int) -> int {
    a - a % k
}

/// Some requested byte falls inside the sector at `sa`.
pub open spec fn sector_touched(rs: Seq<(u32, Seq<u8>)>, ss: int, sa: int) -> bool {
    exists|a: int| sa <= a < sa + ss && #[trigger] covers(rs, a)
}

/// Some requested byte falls inside the page at `pa`.
pub open spec fn page_touched(rs: Seq<(u32, Seq<u8>)>, ps: int, pa: int) -> bool {
    exists|a: int| pa <= a < pa + ps && #[trigger] covers(rs, a)
}

/// The page is aligned, touched, exactly one page long, and each of its
/// bytes is the requested byte there, or the erase fill where nothing
/// was requested.
pub open spec fn page_ok(rs: Seq<(u32, Seq<u8>)>, ps: int, p: (u32, Seq<u8>)) -> bool {
    &&& p.0 as int % ps == 0
    &&& page_touched(rs, ps, p.0 as int)
    &&& p.1.len() == ps
    &&& forall|o: int| 0 <= o < ps ==> p.1[o] == plan_byte(rs, p.0 + o)
}

/// The sector is aligned and touched, marked for erase, and lists
/// exactly its touched pages in ascending order, each pinned by
/// `page_ok`.
pub open spec fn sector_ok(
    rs: Seq<(u32, Seq<u8>)>,
    ps: int,
    ss: int,
    s: (u32, bool, Seq<(u32, Seq<u8>)>),
) -> bool {
    &&& s.0 as int % ss == 0
    &&& sector_touched(rs, ss, s.0 as int)
    &&& s.1 == true
    &&& forall|p: int, q: int|
        #![trigger s.2[p], s.2[q]]
        0 <= p < q < s.2.len() ==> s.2[p].0 < s.2[q].0
    &&& forall|p: int|
        0 <= p < s.2.len() ==> page_ok(rs, ps, #[trigger] s.2[p]) && s.0 <= s.2[p].0
            && s.2[p].0 + ps <= s.0 + ss
    &&& forall|pa: int|
        s.0 <= pa && pa + ps <= s.0 + ss && pa % ps == 0 && #[trigger] page_touched(rs, ps, pa)
            ==> exists|p: int| 0 <= p < s.2.len() && (#[trigger] s.2[p]).0 == pa
}

/// The plan lists exactly the touched sectors in ascending order, each
/// pinned by `sector_ok`. For a fixed request model this determines the
/// plan byte for byte.
pub open spec fn plan_matches(
    rs: Seq<(u32, Seq<u8>)>,
    ps: int,
    ss: int,
    plan: Seq<(u32, bool, Seq<(u32, Seq<u8>)>)>,
) -> bool {
    &&& forall|k: int, l: int|
        #![trigger plan[k], plan[l]]
        0 <= k < l < plan.len() ==> plan[k].0 < plan[l].0
    &&& forall|k: int| 0 <= k < plan.len() ==> sector_ok(rs, ps, ss, #[trigger] plan[k])
    &&& forall|sa: int|
        0 <= sa && sa % ss == 0 && #[trigger] sector_touched(rs, ss, sa) ==> exists|k: int|
            0 <= k < plan.len() && (#[trigger] plan[k]).0 == sa
}

/// The plan as its model.
pub open spec fn plan_view(plan: Seq<FlashSector>) -> Seq<(u32, bool, Seq<(u32, Seq<u8>)>)> {
    plan.map_values(|s: FlashSector| s@)
}

/// A page list as its model.
pub open spec fn pages_view(pages: Seq<FlashPage>) -> Seq<(u32, Seq<u8>)> {
    pages.map_values(|p: FlashPage| p@)
}

/// The maximal covered run `[a0, a0 + l)` holding the least covered
/// address that lies outside every flash region.
pub open spec fn out_of_range_run(
    rs: Seq<(u32, Seq<u8>)>,
    map: MemoryMap,
    a0: int,
    l: int,
) -> bool {
    &&& l >= 1
    &&& forall|x: int| a0 <= x < a0 + l ==> #[trigger] covers(rs, x)
    &&& !covers(rs, a0 - 1)
    &&& !covers(rs, a0 + l)
    &&& exists|bad: int|
        #![trigger map.spec_in_flash(bad)]
        a0 <= bad < a0 + l && !map.spec_in_flash(bad) && (forall|c: int|
            #[trigger] covers(rs, c) && c < bad ==> map.spec_in_flash(c))
}

/// Two different multiples of `k` lie at least `k` apart.
proof fn lemma_aligned_gap(m1: int, m2: int, k: int)
    requires
        k > 0,
        m1 % k == 0,
        m2 % k == 0,
        m1 < m2,
    ensures
        m1 + k <= m2,
{
    vstd::arithmetic::div_mod::lemma_fundamental_div_mod(m1, k);
    vstd::arithmetic::div_mod::lemma_fundamental_div_mod(m2, k);
    let q1 = m1 / k;
    let q2 = m2 / k;
    assert(m1 == k * q1);
    assert(m2 == k * q2);
    vstd::arithmetic::mul::lemma_mul_is_commutative(k, q1);
    vstd::arithmetic::mul::lemma_mul_is_commutative(k, q2);
    if q1 >= q2 {
        vstd::arithmetic::mul::lemma_mul_inequality(q2, q1, k);
        assert(q2 * k <= q1 * k);
        assert(false);
    }
    vstd::arithmetic::mul::lemma_mul_inequality(q1 + 1, q2, k);
    assert((q1 + 1) * k <= q2 * k);
    assert((q1 + 1) * k == q1 * k + k) by (nonlinear_arith);
}

/// The sum of two multiples of `k` is a multiple of `k`.
proof fn lemma_aligned_add(x: int, y: int, k: int)
    requires
        k > 0,
        x % k == 0,
        y % k == 0,
    ensures
        (x + y) % k == 0,
{
    vstd::arithmetic::div_mod::lemma_fundamental_div_mod(x, k);
    vstd::arithmetic::div_mod::lemma_fundamental_div_mod(y, k);
    let q1 = x / k;
    let q2 = y / k;
    assert(x + y == k * (q1 + q2)) by (nonlinear_arith)
        requires
            x == k * q1 + x % k,
            y == k * q2 + y % k,
            x % k == 0,
            y % k == 0,
    ;
    vstd::arithmetic::div_mod::lemma_mod_multiples_basic(q1 + q2, k);
    assert((q1 + q2) * k == k * (q1 + q2)) by (nonlinear_arith);
}

/// A remainder never exceeds what it was taken from.
proof fn lemma_mod_le(a: int, k: int)
    requires
        a >= 0,
        k > 0,
    ensures
        a % k <= a,
{
    vstd::arithmetic::div_mod::lemma_mod_bound(a, k);
    if a < k {
        vstd::arithmetic::div_mod::lemma_small_mod(a as nat, k as nat);
    }
}

/// Basic facts about aligning an address down to a unit boundary.
proof fn lemma_align(a: int, k: int)
    requires
        k > 0,
        a >= 0,
    ensures
        0 <= align_down(a, k) <= a,
        a < align_down(a, k) + k,
        align_down(a, k) % k == 0,
{
    vstd::arithmetic::div_mod::lemma_mod_bound(a, k);
    vstd::arithmetic::div_mod::lemma_fundamental_div_mod(a, k);
    let q = a / k;
    assert(align_down(a, k) == k * q);
    vstd::arithmetic::div_mod::lemma_mod_multiples_basic(q, k);
    assert((q * k) % k == 0);
    assert(k * q == q * k) by (nonlinear_arith);
}

/// An aligned address at most `a` is at most `a` aligned down.
proof fn lemma_align_mono(y: int, a: int, k: int)
    requires
        k > 0,
        0 <= y <= a,
        y % k == 0,
    ensures
        y <= align_down(a, k),
{
    lemma_align(a, k);
    if align_down(a, k) < y {
        lemma_aligned_gap(align_down(a, k), y, k);
        assert(a < align_down(a, k) + k <= y);
        assert(false);
    }
}

/// The aligned representative of an address inside an aligned unit is
/// that unit's start.
proof fn lemma_align_unique(pa: int, a: int, k: int)
    requires
        k > 0,
        pa % k == 0,
        0 <= pa <= a < pa + k,
    ensures
        align_down(a, k) == pa,
{
    lemma_align(a, k);
    lemma_align_mono(pa, a, k);
    if pa < align_down(a, k) {
        lemma_aligned_gap(pa, align_down(a, k), k);
    }
}

/// Divisibility chains down from the sector to the page unit.
proof fn lemma_divides_chain(x: int, ss: int, ps: int)
    requires
        ps > 0,
        ss > 0,
        ss % ps == 0,
        x % ss == 0,
    ensures
        x % ps == 0,
{
    vstd::arithmetic::div_mod::lemma_fundamental_div_mod(x, ss);
    vstd::arithmetic::div_mod::lemma_fundamental_div_mod(ss, ps);
    let q = x / ss;
    let m = ss / ps;
    assert(x == ss * q);
    assert(ss == ps * m);
    assert(x == ps * (m * q)) by (nonlinear_arith)
        requires
            x == ss * q,
            ss == ps * m,
    ;
    vstd::arithmetic::div_mod::lemma_mod_multiples_basic(m * q, ps);
    assert((m * q) * ps == ps * (m * q)) by (nonlinear_arith);
}

/// Coverage is exactly membership among the collected addresses.
proof fn lemma_covers_iff(rs: Seq<(u32, Seq<u8>)>, u: Seq<(u32, u8)>)
    requires
        uniq_sound(rs, u),
        uniq_complete(rs, u),
    ensures
        forall|a: int|
            #[trigger] covers(rs, a) <==> exists|k: int|
                0 <= k < u.len() && (#[trigger] u[k]).0 == a,
{
    assert forall|a: int| #[trigger] covers(rs, a) implies exists|k: int|
        0 <= k < u.len() && (#[trigger] u[k]).0 == a by {
        let b = choose|b: u8| model_pair(rs, a, b);
        assert(model_pair(rs, a, b));
    }
    assert forall|a: int| (exists|k: int|
        0 <= k < u.len() && (#[trigger] u[k]).0 == a) implies covers(rs, a) by {
        let k = choose|k: int| 0 <= k < u.len() && (#[trigger] u[k]).0 == a;
        assert(model_pair(rs, u[k].0 as int, u[k].1));
        assert(covers(rs, a));
    }
}

/// With no conflicts, the collected byte at an address is the plan byte.
proof fn lemma_stored_byte(rs: Seq<(u32, Seq<u8>)>, u: Seq<(u32, u8)>, k: int)
    requires
        uniq_sound(rs, u),
        conflict_free(rs),
        0 <= k < u.len(),
    ensures
        plan_byte(rs, u[k].0 as int) == u[k].1,
{
    let a = u[k].0 as int;
    assert(model_pair(rs, a, u[k].1));
    assert(covers(rs, a));
    let b = choose|b: u8| model_pair(rs, a, b);
    assert(model_pair(rs, a, b));
    if b != u[k].1 {
        assert(conflict_at(rs, a));
    }
}

/// Every recorded request stays within the 32-bit address space.
pub open spec fn reqs_wf(rs: Seq<(u32, Seq<u8>)>) -> bool {
    forall|i: int|
        0 <= i < rs.len() ==> (#[trigger] rs[i]).0 + rs[i].1.len() <= 0x1_0000_0000
}

/// Every page of the plan fits the geometry and the address space, so
/// it can be staged and programmed.
pub open spec fn plan_loadable(plan: Seq<FlashSector>, ps: int) -> bool {
    forall|k: int, p: int|
        0 <= k < plan.len() && 0 <= p < (#[trigger] plan[k]).pages@.len() ==> (
        #[trigger] plan[k].pages@[p]).data@.len() == ps && plan[k].pages@[p].address + ps
            <= 0x1_0000_0000
}

/// A plan pinned by `plan_matches` for a bounded request set can be
/// staged and programmed: every page is one page long and ends inside
/// the address space.
pub proof fn lemma_plan_from_build_loadable(
    rs: Seq<(u32, Seq<u8>)>,
    ps: int,
    ss: int,
    plan: Seq<FlashSector>,
)
    requires
        ps > 0,
        ss > 0,
        0x1_0000_0000int % ss == 0,
        reqs_wf(rs),
        plan_matches(rs, ps, ss, plan_view(plan)),
    ensures
        plan_loadable(plan, ps),
{
    assert forall|k: int, p: int|
        0 <= k < plan.len() && 0 <= p < (#[trigger] plan[k]).pages@.len() implies (
    #[trigger] plan[k].pages@[p]).data@.len() == ps && plan[k].pages@[p].address + ps
        <= 0x1_0000_0000 by {
        let sv = plan_view(plan)[k];
        assert(sector_ok(rs, ps, ss, sv));
        assert(sv.2[p] == plan[k].pages@[p]@);
        assert(page_ok(rs, ps, sv.2[p]));
        let a = choose|a: int| sv.0 <= a < sv.0 + ss && #[trigger] covers(rs, a);
        let r = choose|r: (u32, Seq<u8>)|
            #[trigger] rs.contains(r) && req_covers(r, a) && req_byte(r, a) == byte_at(rs, a);
        assert(covers(rs, a));
        let b = choose|b: u8| model_pair(rs, a, b);
        let r2 = choose|r2: (u32, Seq<u8>)|
            #[trigger] rs.contains(r2) && req_covers(r2, a) && req_byte(r2, a) == b;
        let i = choose|i: int| 0 <= i < rs.len() && rs[i] == r2;
        assert(rs[i].0 + rs[i].1.len() <= 0x1_0000_0000);
        assert(a < 0x1_0000_0000);
        assert(sv.0 < 0x1_0000_0000);
        lemma_aligned_gap(sv.0 as int, 0x1_0000_0000, ss);
        assert(sv.0 + ss <= 0x1_0000_0000);
        assert(sv.2[p].0 + ps <= sv.0 + ss);
    }
}

/// Records write requests and merges them into a programming plan.
pub struct FlashBuilder {
    requests: Vec<WriteRequest>,
}

impl FlashBuilder {
    /// The request set as its model.
    pub closed spec fn reqs(self) -> Seq<(u32, Seq<u8>)> {
        self.requests@.map_values(|r: WriteRequest| r@)
    }

    /// Every recorded request stays within the 32-bit address space.
    pub open spec fn wf(self) -> bool {
        reqs_wf(self.reqs())
    }

    pub fn new() -> (r: FlashBuilder)
        ensures
            r.reqs() == Seq::<(u32, Seq<u8>)>::empty(),
            r.wf(),
    {
        let b = FlashBuilder { requests: Vec::new() };
        proof {
            assert(b.reqs() =~= Seq::<(u32, Seq<u8>)>::empty());
        }
        b
    }

    /// Records a request. Requests may come in any order, need not be
    /// contiguous, and may overlap; recording never fails. Conflicts are
    /// found at `build` time.
    pub fn add_data(&mut self, address: u32, data: Vec<u8>)
        requires
            old(self).wf(),
            address + data@.len() <= 0x1_0000_0000,
        ensures
            final(self).reqs() == old(self).reqs().push((address, data@)),
            final(self).wf(),
    {
        let ghost prev = self.reqs();
        self.requests.push(WriteRequest { address, data });
        proof {
            assert(self.reqs() =~= prev.push((address, data@)));
        }
    }
}

/// The collected bytes are strictly sorted by address.
spec fn uniq_sorted(u: Seq<(u32, u8)>) -> bool {
    forall|k: int, l: int| #![trigger u[k], u[l]] 0 <= k < l < u.len() ==> u[k].0 < u[l].0
}

/// Every collected byte is one some request asked for.
spec fn uniq_sound(rs: Seq<(u32, Seq<u8>)>, u: Seq<(u32, u8)>) -> bool {
    forall|k: int| 0 <= k < u.len() ==> model_pair(rs, (#[trigger] u[k]).0 as int, u[k].1)
}

/// Every requested address has a collected entry.
spec fn uniq_complete(rs: Seq<(u32, Seq<u8>)>, u: Seq<(u32, u8)>) -> bool {
    forall|x: int, y: u8|
        #[trigger] model_pair(rs, x, y) ==> exists|k: int|
            0 <= k < u.len() && (#[trigger] u[k]).0 == x
}

/// The tracked conflict is the least conflicting address, if any.
spec fn cmin_inv(rs: Seq<(u32, Seq<u8>)>, cmin: Option<u32>) -> bool {
    match cmin {
        None => forall|x: int| !conflict_at(rs, x),
        Some(c) => conflict_at(rs, c as int) && (forall|x: int|
            x < c ==> !conflict_at(rs, x)),
    }
}

spec fn stage1_inv(rs: Seq<(u32, Seq<u8>)>, u: Seq<(u32, u8)>, cmin: Option<u32>) -> bool {
    &&& uniq_sorted(u)
    &&& uniq_sound(rs, u)
    &&& uniq_complete(rs, u)
    &&& cmin_inv(rs, cmin)
}

/// Appending one byte to the trailing partial request adds exactly one
/// requested pair to the model.
proof fn lemma_extend_pairs(head: Seq<(u32, Seq<u8>)>, ra: u32, d: Seq<u8>, j: int)
    requires
        0 <= j < d.len(),
    ensures
        forall|x: int, y: u8|
            #[trigger] model_pair(head.push((ra, d.take(j + 1))), x, y) ==> (model_pair(
                head.push((ra, d.take(j))),
                x,
                y,
            ) || (x == ra + j && y == d[j])),
        forall|x: int, y: u8|
            #[trigger] model_pair(head.push((ra, d.take(j))), x, y) ==> model_pair(
                head.push((ra, d.take(j + 1))),
                x,
                y,
            ),
        model_pair(head.push((ra, d.take(j + 1))), ra + j, d[j]),
{
    let p1 = head.push((ra, d.take(j)));
    let p2 = head.push((ra, d.take(j + 1)));
    let r1 = (ra, d.take(j));
    let r2 = (ra, d.take(j + 1));
    assert(p1[head.len() as int] == r1);
    assert(p2[head.len() as int] == r2);
    assert(p1.contains(r1));
    assert(p2.contains(r2));
    assert forall|x: int, y: u8| model_pair(p2, x, y) implies (model_pair(p1, x, y) || (x == ra
        + j && y == d[j])) by {
        let r = choose|r: (u32, Seq<u8>)|
            #[trigger] p2.contains(r) && req_covers(r, x) && req_byte(r, x) == y;
        let i = choose|i: int| 0 <= i < p2.len() && p2[i] == r;
        if i < head.len() {
            assert(p1[i] == r);
            assert(p1.contains(r));
            assert(model_pair(p1, x, y));
        } else {
            assert(r == r2);
            if x < ra + j {
                assert(req_covers(r1, x));
                assert(req_byte(r1, x) == y);
                assert(model_pair(p1, x, y));
            } else {
                assert(x == ra + j);
                assert(y == d[j]);
            }
        }
    }
    assert forall|x: int, y: u8| (model_pair(p1, x, y) || (x == ra + j && y
        == d[j])) implies model_pair(p2, x, y) by {
        if model_pair(p1, x, y) {
            let r = choose|r: (u32, Seq<u8>)|
                #[trigger] p1.contains(r) && req_covers(r, x) && req_byte(r, x) == y;
            let i = choose|i: int| 0 <= i < p1.len() && p1[i] == r;
            if i < head.len() {
                assert(p2[i] == r);
                assert(p2.contains(r));
            } else {
                assert(r == r1);
                assert(req_covers(r2, x));
                assert(req_byte(r2, x) == y);
                assert(model_pair(p2, x, y));
            }
        } else {
            assert(req_covers(r2, ra + j));
            assert(req_byte(r2, ra + j) == d.take(j + 1)[j]);
            assert(d.take(j + 1)[j] == d[j]);
            assert(model_pair(p2, x, y));
        }
    }
}

/// A request set whose pairs match another's, up to one added pair, has
/// the same conflicts plus possibly one at the added address.
proof fn lemma_extend_conflicts(
    p_old: Seq<(u32, Seq<u8>)>,
    p_new: Seq<(u32, Seq<u8>)>,
    a: int,
    b: u8,
)
    requires
        forall|x: int, y: u8|
            #[trigger] model_pair(p_new, x, y) ==> (model_pair(p_old, x, y) || (x == a && y
                == b)),
        forall|x: int, y: u8| #[trigger] model_pair(p_old, x, y) ==> model_pair(p_new, x, y),
        model_pair(p_new, a, b),
    ensures
        forall|x: int|
            #[trigger] conflict_at(p_new, x) ==> (conflict_at(p_old, x) || (x == a && exists|
                y: u8,
            |
                model_pair(p_old, a, y) && y != b)),
        forall|x: int| #[trigger] conflict_at(p_old, x) ==> conflict_at(p_new, x),
        (exists|y: u8| model_pair(p_old, a, y) && y != b) ==> conflict_at(p_new, a),
{
    assert forall|x: int| #[trigger] conflict_at(p_new, x) implies (conflict_at(p_old, x) || (x
        == a && exists|y: u8| model_pair(p_old, a, y) && y != b)) by {
        let (b1, b2) = choose|b1: u8, b2: u8|
            model_pair(p_new, x, b1) && model_pair(p_new, x, b2) && b1 != b2;
        if model_pair(p_old, x, b1) && model_pair(p_old, x, b2) {
            assert(conflict_at(p_old, x));
        } else if model_pair(p_old, x, b1) {
            assert(x == a && b2 == b);
            assert(model_pair(p_old, a, b1) && b1 != b);
        } else {
            assert(x == a && b1 == b);
            assert(model_pair(p_old, x, b2));
            assert(model_pair(p_old, a, b2) && b2 != b);
        }
    }
    assert forall|x: int| #[trigger] conflict_at(p_old, x) implies conflict_at(p_new, x) by {
        let (b1, b2) = choose|b1: u8, b2: u8|
            model_pair(p_old, x, b1) && model_pair(p_old, x, b2) && b1 != b2;
        assert(model_pair(p_new, x, b1) && model_pair(p_new, x, b2));
        assert(conflict_at(p_new, x));
    }
    if exists|y: u8| model_pair(p_old, a, y) && y != b {
        let y = choose|y: u8| model_pair(p_old, a, y) && y != b;
        assert(model_pair(p_new, a, y) && model_pair(p_new, a, b));
        assert(conflict_at(p_new, a));
    }
}

/// A set with exactly the same requested pairs as another has the same
/// coverage, conflicts, and plan bytes.
proof fn lemma_same_pairs(p1: Seq<(u32, Seq<u8>)>, p2: Seq<(u32, Seq<u8>)>)
    requires
        forall|x: int, y: u8| #[trigger] model_pair(p1, x, y) ==> model_pair(p2, x, y),
        forall|x: int, y: u8| #[trigger] model_pair(p2, x, y) ==> model_pair(p1, x, y),
    ensures
        forall|x: int| #[trigger] conflict_at(p1, x) ==> conflict_at(p2, x),
        forall|x: int| #[trigger] conflict_at(p2, x) ==> conflict_at(p1, x),
        forall|x: int| #[trigger] covers(p1, x) ==> covers(p2, x),
        forall|x: int| #[trigger] covers(p2, x) ==> covers(p1, x),
{
    assert forall|x: int| #[trigger] conflict_at(p1, x) implies conflict_at(p2, x) by {
        let (b1, b2) = choose|b1: u8, b2: u8|
            model_pair(p1, x, b1) && model_pair(p1, x, b2) && b1 != b2;
        assert(model_pair(p2, x, b1) && model_pair(p2, x, b2));
        assert(conflict_at(p2, x));
    }
    assert forall|x: int| #[trigger] conflict_at(p2, x) implies conflict_at(p1, x) by {
        let (b1, b2) = choose|b1: u8, b2: u8|
            model_pair(p2, x, b1) && model_pair(p2, x, b2) && b1 != b2;
        assert(model_pair(p1, x, b1) && model_pair(p1, x, b2));
        assert(conflict_at(p1, x));
    }
    assert forall|x: int| #[trigger] covers(p1, x) implies covers(p2, x) by {
        let y = choose|y: u8| model_pair(p1, x, y);
        assert(model_pair(p2, x, y));
        assert(covers(p2, x));
    }
    assert forall|x: int| #[trigger] covers(p2, x) implies covers(p1, x) by {
        let y = choose|y: u8| model_pair(p2, x, y);
        assert(model_pair(p1, x, y));
        assert(covers(p1, x));
    }
}

impl FlashBuilder {
    /// Flattens the request set into one strictly sorted byte list,
    /// tracking the least conflicting address if any two requests
    /// disagree.
    fn collect_bytes(&self) -> (r: Result<Vec<(u32, u8)>, u32>)
        requires
            self.wf(),
        ensures
            match r {
                Ok(u) => {
                    &&& uniq_sorted(u@)
                    &&& uniq_sound(self.reqs(), u@)
                    &&& uniq_complete(self.reqs(), u@)
                    &&& conflict_free(self.reqs())
                },
                Err(c) => {
                    &&& conflict_at(self.reqs(), c as int)
                    &&& forall|x: int| x < c ==> !conflict_at(self.reqs(), x)
                },
            },
    {
        let ghost rs = self.reqs();
        let mut uniq: Vec<(u32, u8)> = Vec::new();
        let mut cmin: Option<u32> = None;
        let nreq = self.requests.len();
        proof {
            assert(rs.take(0) =~= Seq::<(u32, Seq<u8>)>::empty());
            assert forall|x: int, y: u8| !model_pair(rs.take(0), x, y) by {
                if model_pair(rs.take(0), x, y) {
                    let r = choose|r: (u32, Seq<u8>)|
                        #[trigger] rs.take(0).contains(r) && req_covers(r, x) && req_byte(r, x)
                            == y;
                    assert(false);
                }
            }
            assert forall|x: int| !conflict_at(rs.take(0), x) by {
                if conflict_at(rs.take(0), x) {
                    let (b1, b2) = choose|b1: u8, b2: u8|
                        model_pair(rs.take(0), x, b1) && model_pair(rs.take(0), x, b2) && b1
                            != b2;
                }
            }
        }
        let mut ri: usize = 0;
        while ri < nreq
            invariant
                self.wf(),
                rs == self.reqs(),
                nreq == self.requests@.len(),
                0 <= ri <= nreq,
                stage1_inv(rs.take(ri as int), uniq@, cmin),
            decreases nreq - ri,
        {
            let ra = self.requests[ri].address;
            let dlen = self.requests[ri].data.len();
            let ghost head = rs.take(ri as int);
            let ghost d = self.requests@[ri as int].data@;
            proof {
                assert(rs[ri as int] == (ra, d));
                assert(rs[ri as int].0 + rs[ri as int].1.len() <= 0x1_0000_0000);
                // the empty partial request adds no pairs
                let p0 = head.push((ra, d.take(0)));
                assert(p0[head.len() as int] == (ra, d.take(0)));
                assert forall|x: int, y: u8| #[trigger] model_pair(p0, x, y) implies model_pair(
                    head,
                    x,
                    y,
                ) by {
                    let r = choose|r: (u32, Seq<u8>)|
                        #[trigger] p0.contains(r) && req_covers(r, x) && req_byte(r, x) == y;
                    let i = choose|i: int| 0 <= i < p0.len() && p0[i] == r;
                    if i < head.len() {
                        assert(head[i] == r);
                        assert(head.contains(r));
                        assert(model_pair(head, x, y));
                    } else {
                        assert(r == (ra, d.take(0)));
                        assert(r.1.len() == 0);
                        assert(false);
                    }
                }
                assert forall|x: int, y: u8| #[trigger] model_pair(head, x, y) implies model_pair(
                    p0,
                    x,
                    y,
                ) by {
                    let r = choose|r: (u32, Seq<u8>)|
                        #[trigger] head.contains(r) && req_covers(r, x) && req_byte(r, x) == y;
                    let i = choose|i: int| 0 <= i < head.len() && head[i] == r;
                    assert(p0[i] == r);
                    assert(p0.contains(r));
                    assert(model_pair(p0, x, y));
                }
                lemma_same_pairs(head, p0);
                assert(uniq_sound(p0, uniq@));
                assert forall|x: int, y: u8| #[trigger]
                    model_pair(p0, x, y) implies exists|k: int|
                    0 <= k < uniq@.len() && (#[trigger] uniq@[k]).0 == x by {
                    assert(model_pair(head, x, y));
                }
                match cmin {
                    None => {
                        assert forall|x: int| !conflict_at(p0, x) by {
                            if conflict_at(p0, x) {
                                assert(conflict_at(head, x));
                            }
                        }
                    },
                    Some(c) => {
                        assert(conflict_at(head, c as int));
                        assert(conflict_at(p0, c as int));
                        assert forall|x: int| x < c implies !conflict_at(p0, x) by {
                            if conflict_at(p0, x) {
                                assert(conflict_at(head, x));
                            }
                        }
                    },
                }
                assert(cmin_inv(p0, cmin));
            }
            let mut j: usize = 0;
            while j < dlen
                invariant
                    self.wf(),
                    rs == self.reqs(),
                    nreq == self.requests@.len(),
                    0 <= ri < nreq,
                    0 <= j <= dlen,
                    head == rs.take(ri as int),
                    ra == self.requests@[ri as int].address,
                    d == self.requests@[ri as int].data@,
                    dlen == d.len(),
                    ra + dlen <= 0x1_0000_0000,
                    stage1_inv(head.push((ra, d.take(j as int))), uniq@, cmin),
                decreases dlen - j,
            {
                let a: u32 = ra + j as u32;
                let b: u8 = self.requests[ri].data[j];
                let ghost p1 = head.push((ra, d.take(j as int)));
                let ghost p2 = head.push((ra, d.take(j as int + 1)));
                proof {
                    lemma_extend_pairs(head, ra, d, j as int);
                    assert(a as int == ra + j as int);
                    assert(b == d[j as int]);
                    lemma_extend_conflicts(p1, p2, a as int, b);
                }
                let mut pos: usize = uniq.len();
                while pos > 0 && uniq[pos - 1].0 > a
                    invariant
                        0 <= pos <= uniq@.len(),
                        uniq_sorted(uniq@),
                        forall|k: int|
                            pos <= k < uniq@.len() ==> (#[trigger] uniq@[k]).0 > a,
                    decreases pos,
                {
                    pos -= 1;
                }
                if pos > 0 && uniq[pos - 1].0 == a {
                    let stored: u8 = uniq[pos - 1].1;
                    proof {
                        assert(model_pair(p1, a as int, stored));
                        // sound and complete carry over: pairs only grew
                        assert forall|k: int| 0 <= k < uniq@.len() implies model_pair(
                            p2,
                            (#[trigger] uniq@[k]).0 as int,
                            uniq@[k].1,
                        ) by {
                            assert(model_pair(p1, uniq@[k].0 as int, uniq@[k].1));
                        }
                        assert forall|x: int, y: u8| #[trigger]
                            model_pair(p2, x, y) implies exists|k: int|
                            0 <= k < uniq@.len() && (#[trigger] uniq@[k]).0 == x by {
                            if model_pair(p1, x, y) {
                            } else {
                                assert(x == a as int);
                                assert(uniq@[pos - 1].0 == a);
                            }
                        }
                    }
                    if stored != b {
                        proof {
                            assert(model_pair(p1, a as int, stored) && stored != b);
                            assert(conflict_at(p2, a as int));
                        }
                        let newmin: u32 = match cmin {
                            None => a,
                            Some(c) => if a < c {
                                a
                            } else {
                                c
                            },
                        };
                        proof {
                            if newmin != a {
                                assert(conflict_at(p1, newmin as int));
                                assert(conflict_at(p2, newmin as int));
                            }
                            assert forall|x: int| x < newmin implies !conflict_at(
                                p2,
                                x,
                            ) by {
                                if conflict_at(p2, x) {
                                    assert(!conflict_at(p1, x));
                                    assert(x == a as int);
                                }
                            }
                        }
                        cmin = Some(newmin);
                    } else {
                        proof {
                            assert(model_pair(p1, a as int, b));
                            assert forall|x: int| #[trigger] conflict_at(p2, x) implies conflict_at(
                                p1,
                                x,
                            ) by {
                                if x == a as int && !conflict_at(p1, x) {
                                    let y = choose|y: u8|
                                        model_pair(p1, a as int, y) && y != b;
                                    assert(model_pair(p1, a as int, y) && model_pair(
                                        p1,
                                        a as int,
                                        b,
                                    ));
                                    assert(conflict_at(p1, a as int));
                                }
                            }
                            match cmin {
                                None => {
                                    assert forall|x: int| !conflict_at(p2, x) by {
                                        if conflict_at(p2, x) {
                                            assert(conflict_at(p1, x));
                                        }
                                    }
                                },
                                Some(c) => {
                                    assert(conflict_at(p2, c as int));
                                    assert forall|x: int| x < c implies !conflict_at(
                                        p2,
                                        x,
                                    ) by {
                                        if conflict_at(p2, x) {
                                            assert(conflict_at(p1, x));
                                        }
                                    }
                                },
                            }
                            assert(cmin_inv(p2, cmin));
                        }
                    }
                } else {
                    proof {
                        assert forall|k: int| 0 <= k < uniq@.len() implies (
                        #[trigger] uniq@[k]).0 != a by {
                            if k < pos {
                                if pos > 0 {
                                    if k < pos - 1 {
                                        assert(uniq@[k].0 < uniq@[pos - 1].0);
                                    }
                                }
                            }
                        }
                        // no pair of p1 sits at address a
                        assert forall|y: u8| !model_pair(p1, a as int, y) by {
                            if model_pair(p1, a as int, y) {
                                assert(exists|k: int|
                                    0 <= k < uniq@.len() && (#[trigger] uniq@[k]).0 == a);
                                let k = choose|k: int|
                                    0 <= k < uniq@.len() && (#[trigger] uniq@[k]).0 == a;
                                assert(uniq@[k].0 != a);
                                assert(false);
                            }
                        }
                    }
                    let ghost olduniq = uniq@;
                    uniq.insert(pos, (a, b));
                    proof {
                        olduniq.insert_ensures(pos as int, (a, b));
                        assert(uniq@ == olduniq.insert(pos as int, (a, b)));
                        assert forall|k: int, l: int|
                            #![trigger uniq@[k], uniq@[l]]
                            0 <= k < l < uniq@.len() implies uniq@[k].0 < uniq@[l].0 by {
                            if l < pos {
                            } else if k > pos {
                                assert(uniq@[k] == olduniq[k - 1]);
                                assert(uniq@[l] == olduniq[l - 1]);
                            } else if k == pos && l > pos {
                                assert(uniq@[l] == olduniq[l - 1]);
                                assert(olduniq[l - 1].0 > a);
                            } else if l == pos {
                                // k < pos
                                assert(uniq@[k] == olduniq[k]);
                                if pos > 0 {
                                    if k < pos - 1 {
                                        assert(olduniq[k].0 < olduniq[pos - 1].0);
                                    }
                                    assert(olduniq[pos - 1].0 < a);
                                }
                            } else {
                                // k < pos < l
                                assert(uniq@[k] == olduniq[k]);
                                assert(uniq@[l] == olduniq[l - 1]);
                                assert(olduniq[l - 1].0 > a);
                                if pos > 0 {
                                    assert(olduniq[pos - 1].0 < a);
                                    if k < pos - 1 {
                                        assert(olduniq[k].0 < olduniq[pos - 1].0);
                                    }
                                }
                            }
                        }
                        assert forall|k: int| 0 <= k < uniq@.len() implies model_pair(
                            p2,
                            (#[trigger] uniq@[k]).0 as int,
                            uniq@[k].1,
                        ) by {
                            if k < pos {
                                assert(uniq@[k] == olduniq[k]);
                                assert(model_pair(p1, olduniq[k].0 as int, olduniq[k].1));
                            } else if k == pos {
                                assert(uniq@[k] == (a, b));
                            } else {
                                assert(uniq@[k] == olduniq[k - 1]);
                                assert(model_pair(p1, olduniq[k - 1].0 as int, olduniq[k
                                    - 1].1));
                            }
                        }
                        assert forall|x: int, y: u8| #[trigger]
                            model_pair(p2, x, y) implies exists|k: int|
                            0 <= k < uniq@.len() && (#[trigger] uniq@[k]).0 == x by {
                            if model_pair(p1, x, y) {
                                let k = choose|k: int|
                                    0 <= k < olduniq.len() && (#[trigger] olduniq[k]).0 == x;
                                if k < pos {
                                    assert(uniq@[k].0 == x);
                                } else {
                                    assert(uniq@[k + 1] == olduniq[k]);
                                    assert(uniq@[k + 1].0 == x);
                                }
                            } else {
                                assert(x == a as int && y == b);
                                assert(uniq@[pos as int].0 == a);
                            }
                        }
                        // no new conflict: nothing in p1 covers a
                        assert forall|x: int| #[trigger] conflict_at(p2, x) implies conflict_at(
                            p1,
                            x,
                        ) by {
                            if x == a as int && !conflict_at(p1, x) {
                                let y = choose|y: u8| model_pair(p1, a as int, y) && y != b;
                                assert(!model_pair(p1, a as int, y));
                                assert(false);
                            }
                        }
                        match cmin {
                            None => {
                                assert forall|x: int| !conflict_at(p2, x) by {
                                    if conflict_at(p2, x) {
                                        assert(conflict_at(p1, x));
                                    }
                                }
                            },
                            Some(c) => {
                                assert(conflict_at(p1, c as int));
                                assert(conflict_at(p2, c as int));
                                assert forall|x: int| x < c implies !conflict_at(p2, x) by {
                                    if conflict_at(p2, x) {
                                        assert(conflict_at(p1, x));
                                    }
                                }
                            },
                        }
                        assert(cmin_inv(p2, cmin));
                    }
                }
                j += 1;
            }
            proof {
                assert(d.take(dlen as int) =~= d);
                assert(head.push((ra, d)) =~= rs.take(ri as int + 1));
            }
            ri += 1;
        }
        proof {
            assert(rs.take(nreq as int) =~= rs);
        }
        match cmin {
            Some(c) => Err(c),
            None => Ok(uniq),
        }
    }
}

/// Finds the maximal covered run around the least covered address that
/// lies outside every flash region, if there is one.
fn check_range(
    uniq: &Vec<(u32, u8)>,
    map: &MemoryMap,
    Ghost(rs): Ghost<Seq<(u32, Seq<u8>)>>,
) -> (r: Option<(u32, u64)>)
    requires
        map.wf(),
        uniq_sorted(uniq@),
        uniq_sound(rs, uniq@),
        uniq_complete(rs, uniq@),
    ensures
        match r {
            None => flash_all(rs, *map),
            Some((a0, l)) => out_of_range_run(rs, *map, a0 as int, l as int),
        },
{
    proof {
        lemma_covers_iff(rs, uniq@);
    }
    let n = uniq.len();
    let mut idx: usize = 0;
    while idx < n
        invariant
            map.wf(),
            n == uniq@.len(),
            0 <= idx <= n,
            uniq_sorted(uniq@),
            uniq_sound(rs, uniq@),
            uniq_complete(rs, uniq@),
            forall|a: int|
                #[trigger] covers(rs, a) <==> exists|k: int|
                    0 <= k < uniq@.len() && (#[trigger] uniq@[k]).0 == a,
            forall|k: int| 0 <= k < idx ==> map.spec_in_flash((#[trigger] uniq@[k]).0 as int),
        decreases n - idx,
    {
        if !map.in_flash(uniq[idx].0) {
            let mut s: usize = idx;
            while s > 0 && uniq[s - 1].0 as u64 + 1 == uniq[s].0 as u64
                invariant
                    n == uniq@.len(),
                    0 <= s <= idx < n,
                    uniq_sorted(uniq@),
                    forall|t: int|
                        s <= t <= idx ==> (#[trigger] uniq@[t]).0 == uniq@[s as int].0 + (t
                            - s),
                decreases s,
            {
                s -= 1;
            }
            let mut e: usize = idx;
            while e + 1 < n && (uniq[e + 1].0 as u64) == uniq[e].0 as u64 + 1
                invariant
                    n == uniq@.len(),
                    0 <= s <= idx <= e < n,
                    uniq_sorted(uniq@),
                    forall|t: int|
                        s <= t <= idx ==> (#[trigger] uniq@[t]).0 == uniq@[s as int].0 + (t
                            - s),
                    forall|t: int|
                        idx <= t <= e ==> (#[trigger] uniq@[t]).0 == uniq@[idx as int].0 + (t
                            - idx),
                decreases n - e,
            {
                e += 1;
            }
            let a0: u32 = uniq[s].0;
            let l: u64 = uniq[e].0 as u64 - a0 as u64 + 1;
            proof {
                let ghost si = s as int;
                let ghost ei = e as int;
                let ghost ii = idx as int;
                // every index in the run holds the consecutive address
                assert forall|t: int| si <= t <= ei implies (#[trigger] uniq@[t]).0 == a0 + (t
                    - si) by {
                    if t > ii {
                        assert(uniq@[ii].0 == a0 + (ii - si));
                    }
                }
                assert forall|x: int| a0 <= x < a0 + l implies #[trigger] covers(rs, x) by {
                    let t = si + (x - a0);
                    assert(uniq@[t].0 == x);
                }
                // nothing just below or just above the run
                assert forall|k: int| 0 <= k < uniq@.len() implies (#[trigger] uniq@[k]).0
                    != a0 - 1 by {
                    if k >= si {
                        assert(uniq@[k].0 >= a0);
                    } else {
                        assert(si > 0);
                        assert(uniq@[si - 1].0 + 1 < uniq@[si as int].0);
                        if k < si - 1 {
                            assert(uniq@[k].0 < uniq@[si - 1].0);
                        }
                    }
                }
                if covers(rs, a0 - 1) {
                    let k = choose|k: int|
                        0 <= k < uniq@.len() && (#[trigger] uniq@[k]).0 == a0 - 1;
                    assert(false);
                }
                assert forall|k: int| 0 <= k < uniq@.len() implies (#[trigger] uniq@[k]).0
                    != a0 + l by {
                    if k <= ei {
                        assert(uniq@[k].0 <= uniq@[ei].0);
                    } else {
                        assert(e + 1 < n ==> uniq@[ei + 1].0 > uniq@[ei].0 + 1);
                        if k > ei + 1 {
                            assert(uniq@[k].0 > uniq@[ei + 1].0);
                        }
                    }
                }
                if covers(rs, a0 + l) {
                    let k = choose|k: int|
                        0 <= k < uniq@.len() && (#[trigger] uniq@[k]).0 == a0 + l;
                    assert(false);
                }
                // the least covered address outside flash is in the run
                let bad = uniq@[ii].0 as int;
                assert(a0 <= bad < a0 + l);
                assert forall|c: int| #[trigger] covers(rs, c) && c < bad implies map.spec_in_flash(
                    c,
                ) by {
                    let k = choose|k: int|
                        0 <= k < uniq@.len() && (#[trigger] uniq@[k]).0 == c;
                    if k >= ii {
                        assert(uniq@[k].0 >= uniq@[ii].0);
                        assert(false);
                    }
                }
                assert(!map.spec_in_flash(bad));
                assert(out_of_range_run(rs, *map, a0 as int, l as int));
            }
            return Some((a0, l));
        }
        idx += 1;
    }
    proof {
        assert forall|a: int| #[trigger] covers(rs, a) implies map.spec_in_flash(a) by {
            let k = choose|k: int| 0 <= k < uniq@.len() && (#[trigger] uniq@[k]).0 == a;
        }
    }
    None
}

/// Builds the one touched sector holding `uniq[i]`, consuming every
/// collected byte that falls inside it.
#[verifier::rlimit(100)]
fn emit_sector(
    uniq: &Vec<(u32, u8)>,
    i: usize,
    ps: u32,
    ss: u32,
    Ghost(rs): Ghost<Seq<(u32, Seq<u8>)>>,
) -> (r: (FlashSector, usize))
    requires
        ps > 0,
        ss > 0,
        ss % ps == 0,
        0x1_0000_0000int % (ss as int) == 0,
        uniq_sorted(uniq@),
        uniq_sound(rs, uniq@),
        uniq_complete(rs, uniq@),
        conflict_free(rs),
        0 <= i < uniq@.len(),
        forall|t: int|
            0 <= t < i ==> ((#[trigger] uniq@[t]).0 as int) < align_down(
                uniq@[i as int].0 as int,
                ss as int,
            ),
    ensures
        i < r.1 <= uniq@.len(),
        r.0@.0 as int == align_down(uniq@[i as int].0 as int, ss as int),
        r.0@.0 as int + ss <= 0x1_0000_0000,
        sector_ok(rs, ps as int, ss as int, r.0@),
        forall|t: int|
            i <= t < r.1 ==> r.0@.0 <= (#[trigger] uniq@[t]).0 && ((uniq@[t].0 as int) < r.0@.0
                + ss),
        forall|t: int|
            r.1 <= t < uniq@.len() ==> (#[trigger] uniq@[t]).0 as int >= r.0@.0 + ss,
{
    proof {
        lemma_covers_iff(rs, uniq@);
    }
    let n = uniq.len();
    let a_i: u32 = uniq[i].0;
    proof {
        lemma_mod_le(a_i as int, ss as int);
    }
    let sa: u32 = a_i - a_i % ss;
    proof {
        lemma_align(a_i as int, ss as int);
        assert(sa as int == align_down(a_i as int, ss as int));
        lemma_aligned_gap(sa as int, 0x1_0000_0000, ss as int);
        lemma_divides_chain(sa as int, ss as int, ps as int);
    }
    let sector_end: u64 = sa as u64 + ss as u64;
    let mut pages: Vec<FlashPage> = Vec::new();
    let mut k: usize = i;
    while k < n && (uniq[k].0 as u64) < sector_end
        invariant
            ps > 0,
            ss > 0,
            ss % ps == 0,
            n == uniq@.len(),
            0 <= i <= k <= n,
            i < n,
            uniq_sorted(uniq@),
            uniq_sound(rs, uniq@),
            uniq_complete(rs, uniq@),
            conflict_free(rs),
            forall|a: int|
                #[trigger] covers(rs, a) <==> exists|t: int|
                    0 <= t < uniq@.len() && (#[trigger] uniq@[t]).0 == a,
            a_i == uniq@[i as int].0,
            sa as int == align_down(a_i as int, ss as int),
            sa as int % (ss as int) == 0,
            sa as int % (ps as int) == 0,
            sa <= a_i,
            sector_end == sa as int + ss as int,
            sector_end <= 0x1_0000_0000,
            forall|t: int| 0 <= t < i ==> (#[trigger] uniq@[t]).0 < sa,
            forall|t: int|
                i <= t < k ==> sa <= (#[trigger] uniq@[t]).0 && ((uniq@[t].0 as int)
                    < sector_end),
            forall|p: int, q: int|
                #![trigger pages_view(pages@)[p], pages_view(pages@)[q]]
                0 <= p < q < pages@.len() ==> pages_view(pages@)[p].0 < pages_view(
                    pages@,
                )[q].0,
            forall|p: int|
                0 <= p < pages@.len() ==> page_ok(
                    rs,
                    ps as int,
                    #[trigger] pages_view(pages@)[p],
                ) && sa <= pages_view(pages@)[p].0 && pages_view(pages@)[p].0 + ps
                    <= sector_end,
            forall|t: int|
                i <= t < k ==> exists|p: int|
                    0 <= p < pages@.len() && (#[trigger] pages_view(pages@)[p]).0 as int
                        == align_down((#[trigger] uniq@[t]).0 as int, ps as int),
            pages@.len() == 0 ==> k == i,
            pages@.len() > 0 ==> forall|t: int|
                k <= t < n ==> (#[trigger] uniq@[t]).0 as int >= pages_view(
                    pages@,
                ).last().0 + ps,
            pages@.len() > 0 ==> forall|t: int|
                i <= t < k ==> ((#[trigger] uniq@[t]).0 as int) < pages_view(
                    pages@,
                ).last().0 + ps,
        decreases n - k,
    {
        let a_k: u32 = uniq[k].0;
        proof {
            lemma_mod_le(a_k as int, ps as int);
        }
        let pa: u32 = a_k - a_k % ps;
        proof {
            lemma_align(a_k as int, ps as int);
            assert(pa as int == align_down(a_k as int, ps as int));
            lemma_align_mono(sa as int, a_k as int, ps as int);
            lemma_aligned_add(sa as int, ss as int, ps as int);
            lemma_aligned_gap(pa as int, sa as int + ss as int, ps as int);
            if pages@.len() > 0 {
                let lastp = pages_view(pages@).last();
                lemma_aligned_add(lastp.0 as int, ps as int, ps as int);
                lemma_align_mono(lastp.0 + ps, a_k as int, ps as int);
            }
        }
        let page_end: u64 = pa as u64 + ps as u64;
        let mut data: Vec<u8> = vec![ERASED_BYTE; ps as usize];
        let ghost k0 = k as int;
        while k < n && (uniq[k].0 as u64) < page_end
            invariant
                ps > 0,
                n == uniq@.len(),
                0 <= k0 <= k <= n,
                k0 < n,
                pa <= uniq@[k0].0,
                uniq_sorted(uniq@),
                uniq_sound(rs, uniq@),
                conflict_free(rs),
                pa as int % (ps as int) == 0,
                page_end == pa as int + ps as int,
                page_end <= 0x1_0000_0000,
                data@.len() == ps,
                forall|t: int|
                    k0 <= t < k ==> pa <= (#[trigger] uniq@[t]).0 && ((uniq@[t].0 as int)
                        < page_end),
                forall|o: int|
                    0 <= o < ps && (exists|t: int|
                        k0 <= t < k && (#[trigger] uniq@[t]).0 as int == pa + o) ==> data@[o]
                        == plan_byte(rs, pa as int + o),
                forall|o: int|
                    0 <= o < ps && !(exists|t: int|
                        k0 <= t < k && (#[trigger] uniq@[t]).0 as int == pa + o) ==> data@[o]
                        == ERASED_BYTE,
            decreases n - k,
        {
            proof {
                if k > k0 {
                    assert(uniq@[k0].0 < uniq@[k as int].0);
                }
            }
            let off: usize = (uniq[k].0 - pa) as usize;
            let ghost olddata = data@;
            data.set(off, uniq[k].1);
            proof {
                lemma_stored_byte(rs, uniq@, k as int);
                assert(data@[off as int] == plan_byte(rs, pa as int + off));
                assert forall|o: int|
                    0 <= o < ps && (exists|t: int|
                        k0 <= t < k + 1 && (#[trigger] uniq@[t]).0 as int == pa + o) implies data@[o]
                    == plan_byte(rs, pa as int + o) by {
                    if o != off {
                        let t = choose|t: int|
                            k0 <= t < k + 1 && (#[trigger] uniq@[t]).0 as int == pa + o;
                        assert(t < k);
                        assert(exists|t2: int|
                            k0 <= t2 < k && (#[trigger] uniq@[t2]).0 as int == pa + o);
                        assert(data@[o] == olddata[o]);
                    }
                }
                assert forall|o: int|
                    0 <= o < ps && !(exists|t: int|
                        k0 <= t < k + 1 && (#[trigger] uniq@[t]).0 as int == pa + o) implies data@[o]
                    == ERASED_BYTE by {
                    assert(uniq@[k as int].0 as int != pa + o);
                    assert(o != off);
                    assert(!(exists|t: int|
                        k0 <= t < k && (#[trigger] uniq@[t]).0 as int == pa + o));
                }
            }
            k += 1;
        }
        let ghost kend = k as int;
        proof {
            // unfilled positions hold the fill byte, which is the plan
            // byte because nothing covers them
            assert forall|o: int| 0 <= o < ps implies data@[o] == plan_byte(
                rs,
                pa as int + o,
            ) by {
                if exists|t: int| k0 <= t < kend && (#[trigger] uniq@[t]).0 as int == pa + o {
                } else {
                    assert forall|t: int| 0 <= t < uniq@.len() implies (
                    #[trigger] uniq@[t]).0 as int != pa + o by {
                        if t < i {
                            assert(uniq@[t].0 < sa);
                            assert(sa <= pa);
                        } else if t < k0 {
                            if pages@.len() == 0 {
                                assert(false);
                            } else {
                                assert((uniq@[t].0 as int) < pages_view(pages@).last().0
                                    + ps);
                                assert(pages_view(pages@).last().0 + ps <= pa);
                            }
                        } else if t < kend {
                        } else {
                            if t == kend {
                                assert(kend == n || uniq@[kend].0 as int >= page_end);
                            } else {
                                assert(uniq@[t].0 > uniq@[kend].0);
                            }
                        }
                    }
                    if covers(rs, pa as int + o) {
                        let t = choose|t: int|
                            0 <= t < uniq@.len() && (#[trigger] uniq@[t]).0 == pa as int + o;
                        assert(false);
                    }
                    assert(plan_byte(rs, pa as int + o) == ERASED_BYTE);
                }
            }
            assert(covers(rs, a_k as int));
            assert(page_touched(rs, ps as int, pa as int));
        }
        let ghost oldpages = pages@;
        pages.push(FlashPage { address: pa, data });
        proof {
            assert(pages_view(pages@) =~= pages_view(oldpages).push((pa, data@)));
            let pv = pages_view(pages@);
            assert(pv.last() == (pa, data@));
            assert(page_ok(rs, ps as int, (pa, data@)));
            assert forall|p: int, q: int|
                #![trigger pv[p], pv[q]]
                0 <= p < q < pv.len() implies pv[p].0 < pv[q].0 by {
                if q == pv.len() - 1 {
                    if oldpages.len() > 0 {
                        assert(pv[p] == pages_view(oldpages)[p]);
                        assert(pages_view(oldpages)[p].0 <= pages_view(oldpages).last().0);
                        assert(pages_view(oldpages).last().0 + ps <= pa);
                    }
                } else {
                    assert(pv[p] == pages_view(oldpages)[p]);
                    assert(pv[q] == pages_view(oldpages)[q]);
                }
            }
            assert forall|t: int| i <= t < k implies exists|p: int|
                0 <= p < pages@.len() && (#[trigger] pages_view(pages@)[p]).0 as int
                    == align_down((#[trigger] uniq@[t]).0 as int, ps as int) by {
                if t < k0 {
                    let p = choose|p: int|
                        0 <= p < oldpages.len() && (#[trigger] pages_view(
                            oldpages,
                        )[p]).0 as int == align_down(uniq@[t].0 as int, ps as int);
                    assert(pages_view(pages@)[p] == pages_view(oldpages)[p]);
                } else {
                    lemma_align_unique(pa as int, uniq@[t].0 as int, ps as int);
                    assert(pages_view(pages@)[pv.len() - 1].0 as int == align_down(
                        uniq@[t].0 as int,
                        ps as int,
                    ));
                }
            }
            assert forall|t: int| k <= t < n implies (#[trigger] uniq@[t]).0 as int
                >= pv.last().0 + ps by {
                if t > kend {
                    assert(uniq@[t].0 > uniq@[kend].0);
                }
            }
        }
    }
    let ghost kend2 = k as int;
    let sector = FlashSector { address: sa, needs_erase: true, pages };
    proof {
        let sv = sector@;
        assert(sv.0 == sa && sv.1 == true);
        assert(sv.2 =~= pages_view(sector.pages@));
        assert(covers(rs, a_i as int));
        assert(sector_touched(rs, ss as int, sa as int));
        assert forall|pa2: int|
            sv.0 <= pa2 && pa2 + ps <= sv.0 + ss && pa2 % (ps as int) == 0
                && #[trigger] page_touched(rs, ps as int, pa2) implies exists|p: int|
            0 <= p < sv.2.len() && (#[trigger] sv.2[p]).0 == pa2 by {
            let a = choose|a: int| pa2 <= a < pa2 + ps && #[trigger] covers(rs, a);
            let t = choose|t: int| 0 <= t < uniq@.len() && (#[trigger] uniq@[t]).0 == a;
            assert(sa <= uniq@[t].0 && (uniq@[t].0 as int) < sector_end);
            if t < i {
                assert(false);
            }
            if t >= kend2 {
                assert(kend2 == n || uniq@[kend2].0 as int >= sector_end);
                if t > kend2 {
                    assert(uniq@[t].0 > uniq@[kend2].0);
                }
                assert(false);
            }
            lemma_align_unique(pa2, a, ps as int);
            let p = choose|p: int|
                0 <= p < sv.2.len() && (#[trigger] pages_view(sector.pages@)[p]).0 as int
                    == align_down(uniq@[t].0 as int, ps as int);
            assert(sv.2[p].0 == pa2);
        }
        assert(sector_ok(rs, ps as int, ss as int, sv));
    }
    (sector, k)
}

/// If every collected byte's sector is in the plan, every touched
/// sector is.
proof fn lemma_plan_complete(
    rs: Seq<(u32, Seq<u8>)>,
    u: Seq<(u32, u8)>,
    pv: Seq<(u32, bool, Seq<(u32, Seq<u8>)>)>,
    ss: int,
)
    requires
        ss > 0,
        forall|a: int|
            #[trigger] covers(rs, a) <==> exists|t: int|
                0 <= t < u.len() && (#[trigger] u[t]).0 == a,
        forall|t: int|
            0 <= t < u.len() ==> exists|k: int|
                0 <= k < pv.len() && (#[trigger] pv[k]).0 as int == align_down(
                    (#[trigger] u[t]).0 as int,
                    ss,
                ),
    ensures
        forall|sa2: int|
            0 <= sa2 && sa2 % ss == 0 && #[trigger] sector_touched(rs, ss, sa2)
                ==> exists|k2: int| 0 <= k2 < pv.len() && (#[trigger] pv[k2]).0 == sa2,
{
    assert forall|sa2: int|
        0 <= sa2 && sa2 % ss == 0 && #[trigger] sector_touched(rs, ss, sa2) implies exists|
        k2: int,
    | 0 <= k2 < pv.len() && (#[trigger] pv[k2]).0 == sa2 by {
        let a = choose|a: int| sa2 <= a < sa2 + ss && #[trigger] covers(rs, a);
        let t = choose|t: int| 0 <= t < u.len() && (#[trigger] u[t]).0 == a;
        lemma_align_unique(sa2, a, ss);
        let k2 = choose|k2: int|
            0 <= k2 < pv.len() && (#[trigger] pv[k2]).0 as int == align_down(u[t].0 as int, ss);
        assert(pv[k2].0 == sa2);
    }
}

/// Walks the collected bytes and emits one sector per touched sector,
/// holding its touched pages, each erase-fill padded.
#[verifier::rlimit(100)]
#[verifier::spinoff_prover]
fn emit_plan(uniq: &Vec<(u32, u8)>, ps: u32, ss: u32, Ghost(rs): Ghost<Seq<(u32, Seq<u8>)>>) -> (plan:
    Vec<FlashSector>)
    requires
        ps > 0,
        ss > 0,
        ss % ps == 0,
        0x1_0000_0000int % (ss as int) == 0,
        uniq_sorted(uniq@),
        uniq_sound(rs, uniq@),
        uniq_complete(rs, uniq@),
        conflict_free(rs),
    ensures
        plan_matches(rs, ps as int, ss as int, plan_view(plan@)),
{
    proof {
        lemma_covers_iff(rs, uniq@);
    }
    let mut plan: Vec<FlashSector> = Vec::new();
    let n = uniq.len();
    let mut i: usize = 0;
    while i < n
        invariant
            ps > 0,
            ss > 0,
            ss % ps == 0,
            0x1_0000_0000int % (ss as int) == 0,
            n == uniq@.len(),
            0 <= i <= n,
            uniq_sorted(uniq@),
            uniq_sound(rs, uniq@),
            uniq_complete(rs, uniq@),
            conflict_free(rs),
            forall|a: int|
                #[trigger] covers(rs, a) <==> exists|t: int|
                    0 <= t < uniq@.len() && (#[trigger] uniq@[t]).0 == a,
            forall|k: int, l: int|
                #![trigger plan_view(plan@)[k], plan_view(plan@)[l]]
                0 <= k < l < plan@.len() ==> plan_view(plan@)[k].0 < plan_view(plan@)[l].0,
            forall|k: int|
                0 <= k < plan@.len() ==> sector_ok(
                    rs,
                    ps as int,
                    ss as int,
                    #[trigger] plan_view(plan@)[k],
                ),
            forall|t: int|
                0 <= t < i ==> exists|k: int|
                    0 <= k < plan@.len() && (#[trigger] plan_view(plan@)[k]).0 as int
                        == align_down((#[trigger] uniq@[t]).0 as int, ss as int),
            plan@.len() == 0 ==> i == 0,
            plan@.len() > 0 ==> plan_view(plan@).last().0 as int + ss <= 0x1_0000_0000,
            plan@.len() > 0 ==> forall|t: int|
                i <= t < n ==> (#[trigger] uniq@[t]).0 as int >= plan_view(
                    plan@,
                ).last().0 + ss,
            plan@.len() > 0 ==> forall|t: int|
                0 <= t < i ==> ((#[trigger] uniq@[t]).0 as int) < plan_view(
                    plan@,
                ).last().0 + ss,
        decreases n - i,
    {
        proof {
            if plan@.len() > 0 {
                let last = plan_view(plan@).last();
                lemma_aligned_add(last.0 as int, ss as int, ss as int);
                lemma_align_mono(last.0 + ss, uniq@[i as int].0 as int, ss as int);
            } else {
                lemma_align(uniq@[i as int].0 as int, ss as int);
            }
        }
        let r = emit_sector(uniq, i, ps, ss, Ghost(rs));
        let sector = r.0;
        let k = r.1;
        let ghost oldplan = plan@;
        let ghost sv = sector@;
        plan.push(sector);
        proof {
            assert(plan_view(plan@) =~= plan_view(oldplan).push(sv));
            let pv = plan_view(plan@);
            assert(pv.last() == sv);
            assert forall|k2: int, l2: int|
                #![trigger pv[k2], pv[l2]]
                0 <= k2 < l2 < pv.len() implies pv[k2].0 < pv[l2].0 by {
                if l2 == pv.len() - 1 {
                    if oldplan.len() > 0 {
                        assert(pv[k2] == plan_view(oldplan)[k2]);
                        assert(plan_view(oldplan)[k2].0 <= plan_view(oldplan).last().0);
                        assert(plan_view(oldplan).last().0 + ss <= uniq@[i as int].0 as int);
                        assert(sv.0 as int >= plan_view(oldplan).last().0 + ss);
                    }
                } else {
                    assert(pv[k2] == plan_view(oldplan)[k2]);
                    assert(pv[l2] == plan_view(oldplan)[l2]);
                }
            }
            assert forall|t: int| 0 <= t < k implies exists|k2: int|
                0 <= k2 < plan@.len() && (#[trigger] plan_view(plan@)[k2]).0 as int
                    == align_down((#[trigger] uniq@[t]).0 as int, ss as int) by {
                if t < i {
                    let k2 = choose|k2: int|
                        0 <= k2 < oldplan.len() && (#[trigger] plan_view(
                            oldplan,
                        )[k2]).0 as int == align_down(uniq@[t].0 as int, ss as int);
                    assert(plan_view(plan@)[k2] == plan_view(oldplan)[k2]);
                } else {
                    assert(sv.0 <= uniq@[t].0 && ((uniq@[t].0 as int) < sv.0 + ss));
                    lemma_align_unique(sv.0 as int, uniq@[t].0 as int, ss as int);
                    assert(plan_view(plan@)[pv.len() - 1].0 as int == align_down(
                        uniq@[t].0 as int,
                        ss as int,
                    ));
                }
            }
        }
        i = k;
    }
    proof {
        lemma_plan_complete(rs, uniq@, plan_view(plan@), ss as int);
    }
    plan
}

impl FlashBuilder {
    /// Merges the recorded requests into the ordered, sector-aligned
    /// programming plan.
    ///
    /// Succeeds exactly when no two requests disagree on a byte and
    /// every requested byte lies in a flash region of the map; the plan
    /// then lists exactly the touched sectors in ascending order, each
    /// holding its touched pages, every byte pinned to the requested
    /// value or the erase fill.
    pub fn build(&self, algorithm: &FlashAlgorithm, map: &MemoryMap) -> (r: Result<
        Vec<FlashSector>,
        BuildError,
    >)
        requires
            self.wf(),
            algorithm.geometry_wf(),
            map.wf(),
        ensures
            match r {
                Ok(plan) => conflict_free(self.reqs()) && flash_all(self.reqs(), *map)
                    && plan_matches(
                    self.reqs(),
                    algorithm.page_size as int,
                    algorithm.sector_size as int,
                    plan_view(plan@),
                ),
                Err(e) => match e {
                    BuildError::ConflictingData(a) => conflict_at(self.reqs(), a as int) && (
                    forall|x: int| x < a ==> !conflict_at(self.reqs(), x)),
                    BuildError::OutOfRange(a0, l) => conflict_free(self.reqs())
                        && out_of_range_run(self.reqs(), *map, a0 as int, l as int),
                },
            },
    {
        let uniq = match self.collect_bytes() {
            Ok(u) => u,
            Err(c) => {
                return Err(BuildError::ConflictingData(c));
            },
        };
        match check_range(&uniq, map, Ghost(self.reqs())) {
            Some((a0, l)) => Err(BuildError::OutOfRange(a0, l)),
            None => Ok(
                emit_plan(&uniq, algorithm.page_size, algorithm.sector_size, Ghost(self.reqs())),
            ),
        }
    }
}

/// Two strictly increasing integer sequences with the same members are
/// the same sequence.
proof fn lemma_sorted_addrs_unique(s1: Seq<int>, s2: Seq<int>)
    requires
        forall|k: int, l: int| 0 <= k < l < s1.len() ==> #[trigger] s1[k] < #[trigger] s1[l],
        forall|k: int, l: int| 0 <= k < l < s2.len() ==> #[trigger] s2[k] < #[trigger] s2[l],
        forall|x: int| s1.contains(x) <==> s2.contains(x),
    ensures
        s1 == s2,
    decreases s1.len(),
{
    if s1.len() == 0 {
        if s2.len() > 0 {
            assert(s2.contains(s2[0]));
            assert(s1.contains(s2[0]));
            assert(false);
        }
        assert(s1 =~= s2);
    } else {
        if s2.len() == 0 {
            assert(s1.contains(s1[0]));
            assert(s2.contains(s1[0]));
            assert(false);
        }
        assert(s1.contains(s1[0]));
        assert(s2.contains(s1[0]));
        let j = choose|j: int| 0 <= j < s2.len() && s2[j] == s1[0];
        assert(s2[0] <= s1[0]);
        assert(s2.contains(s2[0]));
        assert(s1.contains(s2[0]));
        let j2 = choose|j2: int| 0 <= j2 < s1.len() && s1[j2] == s2[0];
        assert(s1[0] <= s2[0]);
        let t1 = s1.drop_first();
        let t2 = s2.drop_first();
        assert forall|x: int| t1.contains(x) <==> t2.contains(x) by {
            if t1.contains(x) {
                let i = choose|i: int| 0 <= i < t1.len() && t1[i] == x;
                assert(s1[i + 1] == x);
                assert(s1.contains(x));
                assert(x > s1[0]);
                assert(s2.contains(x));
                let i2 = choose|i2: int| 0 <= i2 < s2.len() && s2[i2] == x;
                assert(i2 > 0);
                assert(t2[i2 - 1] == x);
                assert(t2.contains(x));
            }
            if t2.contains(x) {
                let i = choose|i: int| 0 <= i < t2.len() && t2[i] == x;
                assert(s2[i + 1] == x);
                assert(s2.contains(x));
                assert(x > s2[0]);
                assert(s1.contains(x));
                let i2 = choose|i2: int| 0 <= i2 < s1.len() && s1[i2] == x;
                assert(i2 > 0);
                assert(t1[i2 - 1] == x);
                assert(t1.contains(x));
            }
        }
        lemma_sorted_addrs_unique(t1, t2);
        assert(s1.len() == s2.len());
        assert forall|i: int| 0 <= i < s1.len() implies s1[i] == s2[i] by {
            if i > 0 {
                assert(t1[i - 1] == t2[i - 1]);
                assert(s1[i] == t1[i - 1]);
                assert(s2[i] == t2[i - 1]);
            }
        }
        assert(s1 =~= s2);
    }
}

/// Two request lists holding the same requests (in any order) make the
/// same pairs, conflicts, coverage and plan bytes.
pub proof fn lemma_permutation_same_model(rs1: Seq<(u32, Seq<u8>)>, rs2: Seq<(u32, Seq<u8>)>)
    requires
        rs1.to_multiset() == rs2.to_multiset(),
    ensures
        forall|x: int, y: u8| #[trigger] model_pair(rs1, x, y) ==> model_pair(rs2, x, y),
        forall|x: int, y: u8| #[trigger] model_pair(rs2, x, y) ==> model_pair(rs1, x, y),
        forall|x: int| #[trigger] conflict_at(rs1, x) ==> conflict_at(rs2, x),
        forall|x: int| #[trigger] conflict_at(rs2, x) ==> conflict_at(rs1, x),
        forall|x: int| #[trigger] covers(rs1, x) ==> covers(rs2, x),
        forall|x: int| #[trigger] covers(rs2, x) ==> covers(rs1, x),
        conflict_free(rs1) <==> conflict_free(rs2),
{
    broadcast use vstd::seq_lib::group_to_multiset_ensures;

    assert forall|r: (u32, Seq<u8>)| #[trigger] rs1.contains(r) implies rs2.contains(r) by {
        assert(rs1.to_multiset().count(r) > 0);
    }
    assert forall|r: (u32, Seq<u8>)| #[trigger] rs2.contains(r) implies rs1.contains(r) by {
        assert(rs2.to_multiset().count(r) > 0);
    }
    assert forall|x: int, y: u8| #[trigger] model_pair(rs1, x, y) implies model_pair(
        rs2,
        x,
        y,
    ) by {
        let r = choose|r: (u32, Seq<u8>)|
            #[trigger] rs1.contains(r) && req_covers(r, x) && req_byte(r, x) == y;
        assert(rs2.contains(r));
    }
    assert forall|x: int, y: u8| #[trigger] model_pair(rs2, x, y) implies model_pair(
        rs1,
        x,
        y,
    ) by {
        let r = choose|r: (u32, Seq<u8>)|
            #[trigger] rs2.contains(r) && req_covers(r, x) && req_byte(r, x) == y;
        assert(rs1.contains(r));
    }
    lemma_same_pairs(rs1, rs2);
    if conflict_free(rs1) {
        assert forall|x: int| !conflict_at(rs2, x) by {
            if conflict_at(rs2, x) {
                assert(conflict_at(rs1, x));
            }
        }
    }
    if conflict_free(rs2) {
        assert forall|x: int| !conflict_at(rs1, x) by {
            if conflict_at(rs1, x) {
                assert(conflict_at(rs2, x));
            }
        }
    }
}

/// Permuting the requests leaves the plan identical: any two plans
/// pinned by `plan_matches` for request lists that hold the same
/// requests are equal, sector for sector, page for page, byte for byte.
pub proof fn lemma_build_order_independent(
    rs1: Seq<(u32, Seq<u8>)>,
    rs2: Seq<(u32, Seq<u8>)>,
    ps: int,
    ss: int,
    p1: Seq<(u32, bool, Seq<(u32, Seq<u8>)>)>,
    p2: Seq<(u32, bool, Seq<(u32, Seq<u8>)>)>,
)
    requires
        rs1.to_multiset() == rs2.to_multiset(),
        conflict_free(rs1),
        ps > 0,
        ss > 0,
        plan_matches(rs1, ps, ss, p1),
        plan_matches(rs2, ps, ss, p2),
    ensures
        p1 == p2,
{
    lemma_permutation_same_model(rs1, rs2);
    // the plan byte is the same under both request lists
    assert forall|a: int| plan_byte(rs1, a) == plan_byte(rs2, a) by {
        if covers(rs1, a) {
            let b1 = byte_at(rs1, a);
            let b2 = byte_at(rs2, a);
            assert(covers(rs2, a));
            assert(model_pair(rs1, a, b1));
            assert(model_pair(rs2, a, b2));
            assert(model_pair(rs1, a, b2));
            if b1 != b2 {
                assert(conflict_at(rs1, a));
            }
        } else {
            assert(!covers(rs2, a));
        }
    }
    assert forall|sa: int| #[trigger] sector_touched(rs1, ss, sa) <==> sector_touched(
        rs2,
        ss,
        sa,
    ) by {
        if sector_touched(rs1, ss, sa) {
            let a = choose|a: int| sa <= a < sa + ss && #[trigger] covers(rs1, a);
            assert(covers(rs2, a));
        }
        if sector_touched(rs2, ss, sa) {
            let a = choose|a: int| sa <= a < sa + ss && #[trigger] covers(rs2, a);
            assert(covers(rs1, a));
        }
    }
    assert forall|pa: int| #[trigger] page_touched(rs1, ps, pa) <==> page_touched(
        rs2,
        ps,
        pa,
    ) by {
        if page_touched(rs1, ps, pa) {
            let a = choose|a: int| pa <= a < pa + ps && #[trigger] covers(rs1, a);
            assert(covers(rs2, a));
        }
        if page_touched(rs2, ps, pa) {
            let a = choose|a: int| pa <= a < pa + ps && #[trigger] covers(rs2, a);
            assert(covers(rs1, a));
        }
    }
    // the sector address lists agree
    let a1 = p1.map_values(|s: (u32, bool, Seq<(u32, Seq<u8>)>)| s.0 as int);
    let a2 = p2.map_values(|s: (u32, bool, Seq<(u32, Seq<u8>)>)| s.0 as int);
    assert forall|x: int| a1.contains(x) <==> a2.contains(x) by {
        if a1.contains(x) {
            let k = choose|k: int| 0 <= k < a1.len() && a1[k] == x;
            assert(sector_ok(rs1, ps, ss, p1[k]));
            assert(sector_touched(rs2, ss, x));
            let k2 = choose|k2: int| 0 <= k2 < p2.len() && (#[trigger] p2[k2]).0 == x;
            assert(a2[k2] == x);
        }
        if a2.contains(x) {
            let k = choose|k: int| 0 <= k < a2.len() && a2[k] == x;
            assert(sector_ok(rs2, ps, ss, p2[k]));
            assert(sector_touched(rs1, ss, x));
            let k2 = choose|k2: int| 0 <= k2 < p1.len() && (#[trigger] p1[k2]).0 == x;
            assert(a1[k2] == x);
        }
    }
    lemma_sorted_addrs_unique(a1, a2);
    assert(a1.len() == p1.len());
    assert(a2.len() == p2.len());
    assert(p1.len() == p2.len());
    // sectors agree pairwise
    assert forall|k: int| 0 <= k < p1.len() implies p1[k] == p2[k] by {
        assert(a1[k] == a2[k]);
        let s1 = p1[k];
        let s2 = p2[k];
        assert(s1.0 == s2.0);
        assert(sector_ok(rs1, ps, ss, s1));
        assert(sector_ok(rs2, ps, ss, s2));
        let q1 = s1.2.map_values(|p: (u32, Seq<u8>)| p.0 as int);
        let q2 = s2.2.map_values(|p: (u32, Seq<u8>)| p.0 as int);
        assert forall|x: int| q1.contains(x) <==> q2.contains(x) by {
            if q1.contains(x) {
                let i = choose|i: int| 0 <= i < q1.len() && q1[i] == x;
                assert(page_ok(rs1, ps, s1.2[i]));
                assert(page_touched(rs2, ps, x));
                let i2 = choose|i2: int| 0 <= i2 < s2.2.len() && (#[trigger] s2.2[i2]).0 == x;
                assert(q2[i2] == x);
            }
            if q2.contains(x) {
                let i = choose|i: int| 0 <= i < q2.len() && q2[i] == x;
                assert(page_ok(rs2, ps, s2.2[i]));
                assert(page_touched(rs1, ps, x));
                let i2 = choose|i2: int| 0 <= i2 < s1.2.len() && (#[trigger] s1.2[i2]).0 == x;
                assert(q1[i2] == x);
            }
        }
        lemma_sorted_addrs_unique(q1, q2);
        assert(s1.2.len() == s2.2.len());
        assert forall|i: int| 0 <= i < s1.2.len() implies s1.2[i] == s2.2[i] by {
            assert(q1[i] == q2[i]);
            assert(s1.2[i].0 == s2.2[i].0);
            assert(page_ok(rs1, ps, s1.2[i]));
            assert(page_ok(rs2, ps, s2.2[i]));
            assert forall|o: int| 0 <= o < ps implies s1.2[i].1[o] == s2.2[i].1[o] by {
                assert(s1.2[i].1[o] == plan_byte(rs1, s1.2[i].0 + o));
                assert(s2.2[i].1[o] == plan_byte(rs2, s2.2[i].0 + o));
                assert(plan_byte(rs1, s1.2[i].0 + o) == plan_byte(rs2, s1.2[i].0 + o));
            }
            assert(s1.2[i].1 =~= s2.2[i].1);
        }
        assert(s1.2 =~= s2.2);
    }
    assert(p1 =~= p2);
}

} // verus!

