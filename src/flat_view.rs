use vstd::prelude::*;

use crate::address::{spec_max, spec_min, u64_top, AddressRange, GuestAddress};
use crate::error::AddressSpaceError;
use crate::region::{Region, RegionType};

verus! {

/// A piece of contiguous guest addresses served by one leaf region.
#[derive(Debug, Clone)]
pub struct FlatRange {
    pub addr_range: AddressRange,
    /// The leaf region that serves the range (a copy without children).
    pub owner: Region,
    /// Offset of the first address of the range within the owner.
    pub offset_in_region: u64,
}

/// The flattened region tree: ranges sorted by address and disjoint.
#[derive(Debug, Clone)]
pub struct FlatView(pub Vec<FlatRange>);

impl FlatRange {
    /// Absolute guest address at which the owner starts.
    pub open spec fn owner_base(self) -> int {
        self.addr_range.lo() - self.offset_in_region
    }
}

/// Ranges are non-empty, within the address space, sorted and disjoint.
pub open spec fn ranges_wf(s: Seq<FlatRange>) -> bool {
    &&& forall|i: int| 0 <= i < s.len() ==> (#[trigger] s[i]).addr_range.size > 0 && s[i].addr_range.fits()
    &&& forall|i: int, j: int| 0 <= i < j < s.len() ==> (#[trigger] s[i]).addr_range.hi() <= (#[trigger] s[j]).addr_range.lo()
}

/// Some range of `s` holds address `x`.
pub open spec fn covers(s: Seq<FlatRange>, x: int) -> bool {
    exists|i: int| 0 <= i < s.len() && (#[trigger] s[i]).addr_range.contains(x)
}

/// The leaf of the subtree `r` that serves address `x`, with the absolute
/// address that leaf starts at. `r` is placed at `base + r.offset` and only
/// addresses of the window `[lo, hi)` are served. A container clips the
/// window to itself and asks its children in order: the first child that
/// serves `x` wins, so a higher-priority sibling shadows a lower one.
pub open spec fn leaf_at(r: Region, base: int, lo: int, hi: int, x: int) -> Option<(Region, int)>
    decreases r,
{
    let abs = base + r.offset.0;
    if r.region_type == RegionType::Container {
        children_at(r.subregions@, abs, spec_max(lo, abs), spec_min(hi, abs + r.size), x)
    } else if lo <= x < hi && abs <= x < abs + r.size {
        Some((r, abs))
    } else {
        None
    }
}

/// The first of the sibling subtrees `cs` that serves `x`.
pub open spec fn children_at(cs: Seq<Region>, base: int, lo: int, hi: int, x: int) -> Option<(Region, int)>
    decreases cs,
{
    if cs.len() == 0 {
        None
    } else {
        match children_at(cs.subrange(0, cs.len() - 1), base, lo, hi, x) {
            Some(p) => Some(p),
            None => leaf_at(cs[cs.len() - 1], base, lo, hi, x),
        }
    }
}

/// Region `r`, placed at `base + r.offset`, lies within the address space
/// and shares at least one address with the window `[lo, hi)`, which lies
/// within the address space too.
pub open spec fn meets_window(r: Region, base: int, lo: int, hi: int) -> bool {
    let abs = base + r.offset.0;
    &&& hi <= u64_top()
    &&& abs + r.size <= u64_top()
    &&& spec_max(lo, abs) < spec_min(hi, abs + r.size)
}

/// Flattening succeeds: every region of the subtree lies within the address
/// space and meets the window that its ancestors leave it.
pub open spec fn render_ok(r: Region, base: int, lo: int, hi: int) -> bool
    decreases r,
{
    let abs = base + r.offset.0;
    &&& meets_window(r, base, lo, hi)
    &&& r.region_type == RegionType::Container ==> children_ok(
        r.subregions@,
        abs,
        spec_max(lo, abs),
        spec_min(hi, abs + r.size),
    )
}

/// Flattening succeeds on each of the sibling subtrees `cs`.
pub open spec fn children_ok(cs: Seq<Region>, base: int, lo: int, hi: int) -> bool
    decreases cs,
{
    cs.len() == 0 || (children_ok(cs.subrange(0, cs.len() - 1), base, lo, hi) && render_ok(cs[cs.len() - 1], base, lo, hi))
}

/// The range `fr` is served as `o` says: by a leaf with the same key that
/// starts at the same absolute address.
pub open spec fn agrees(fr: FlatRange, o: Option<(Region, int)>) -> bool {
    &&& o is Some
    &&& (o->0).0.key() == fr.owner.key()
    &&& (o->0).1 == fr.owner_base()
}

/// `new` is `old` with the addresses that `f` serves and `old` does not
/// cover added: `old`'s ranges stay as they are, and every address that
/// `old` left open is now served as `f` says.
pub open spec fn extends(old: Seq<FlatRange>, new: Seq<FlatRange>, f: spec_fn(int) -> Option<(Region, int)>) -> bool {
    &&& ranges_wf(new)
    &&& forall|x: int| #[trigger] covers(new, x) <==> covers(old, x) || f(x) is Some
    &&& forall|j: int| 0 <= j < old.len() ==> new.contains(#[trigger] old[j])
    &&& forall|i: int, x: int|
        0 <= i < new.len() && #[trigger] new[i].addr_range.contains(x) && !covers(old, x) ==> agrees(new[i], f(x))
}

/// `q` takes up where `p` ends, for the same owner at the same place: the
/// two could be one range.
pub open spec fn continues(p: FlatRange, q: FlatRange) -> bool {
    &&& p.addr_range.hi() == q.addr_range.lo()
    &&& p.owner.key() == q.owner.key()
    &&& p.owner_base() == q.owner_base()
}

/// No range of `s` continues its predecessor.
pub open spec fn maximal(s: Seq<FlatRange>) -> bool {
    forall|i: int| 0 <= i < s.len() - 1 ==> !continues(#[trigger] s[i], s[i + 1])
}

/// `y` lies within the owner of `fr`, placed where `fr` says it starts.
pub open spec fn in_owner(fr: FlatRange, y: int) -> bool {
    fr.owner_base() <= y < fr.owner_base() + fr.owner.size
}

/// Each owner in `s` has every one of its addresses within `[wlo, whi)`
/// held by some range of `s`.
pub open spec fn owners_filled(s: Seq<FlatRange>, wlo: int, whi: int) -> bool {
    forall|i: int, y: int| 0 <= i < s.len() && #[trigger] in_owner(s[i], y) && wlo <= y < whi ==> covers(s, y)
}

/// On the region `[abs, abs + size)` the window `[lo, hi)` cuts the same
/// addresses as `[wlo, whi)`.
pub open spec fn window_matches(abs: int, size: int, lo: int, hi: int, wlo: int, whi: int) -> bool {
    &&& spec_max(lo, abs) == spec_max(wlo, abs)
    &&& spec_min(hi, abs + size) == spec_min(whi, abs + size)
}

/// `fr` is owned by a region with key `k` that starts at `abs`.
pub open spec fn owned_by(fr: FlatRange, k: (RegionType, i32, u64, GuestAddress, Option<crate::host_mmap::HostMemMapping>, Option<u64>), abs: int) -> bool {
    fr.owner.key() == k && fr.owner_base() == abs
}

/// In a well-formed view at most one range holds a given address.
pub proof fn lemma_unique_range(s: Seq<FlatRange>, i: int, j: int, x: int)
    requires
        ranges_wf(s),
        0 <= i < s.len(),
        0 <= j < s.len(),
        s[i].addr_range.contains(x),
        s[j].addr_range.contains(x),
    ensures
        i == j,
{
    if i < j {
        assert(s[i].addr_range.hi() <= s[j].addr_range.lo());
    } else if j < i {
        assert(s[j].addr_range.hi() <= s[i].addr_range.lo());
    }
}

/// Inserting a range keeps every element and adds exactly its addresses.
proof fn lemma_insert(s: Seq<FlatRange>, k: int, p: FlatRange)
    requires
        0 <= k <= s.len(),
    ensures
        forall|x: int| #[trigger] covers(s.insert(k, p), x) <==> covers(s, x) || p.addr_range.contains(x),
        forall|e: FlatRange| s.contains(e) ==> #[trigger] s.insert(k, p).contains(e),
        forall|m: int| 0 <= m < k ==> #[trigger] s.insert(k, p)[m] == s[m],
        forall|m: int| k < m <= s.len() ==> #[trigger] s.insert(k, p)[m] == s[m - 1],
        s.insert(k, p)[k] == p,
        s.insert(k, p).len() == s.len() + 1,
{
    s.insert_ensures(k, p);
    let t = s.insert(k, p);
    assert forall|x: int| #[trigger] covers(t, x) <==> covers(s, x) || p.addr_range.contains(x) by {
        if covers(t, x) {
            let i = choose|i: int| 0 <= i < t.len() && (#[trigger] t[i]).addr_range.contains(x);
            if i < k {
                assert(s[i].addr_range.contains(x));
            } else if i > k {
                assert(s[i - 1].addr_range.contains(x));
            }
        }
        if covers(s, x) {
            let i = choose|i: int| 0 <= i < s.len() && (#[trigger] s[i]).addr_range.contains(x);
            if i < k {
                assert(t[i].addr_range.contains(x));
            } else {
                assert(t[i + 1].addr_range.contains(x));
            }
        }
        if p.addr_range.contains(x) {
            assert(t[k].addr_range.contains(x));
        }
    }
    assert forall|e: FlatRange| s.contains(e) implies #[trigger] t.contains(e) by {
        let i = choose|i: int| 0 <= i < s.len() && s[i] == e;
        if i < k {
            assert(t[i] == e);
        } else {
            assert(t[i + 1] == e);
        }
    }
}

/// Inserting a range into a gap keeps a view well formed.
proof fn lemma_insert_wf(s: Seq<FlatRange>, k: int, p: FlatRange)
    requires
        ranges_wf(s),
        0 <= k <= s.len(),
        p.addr_range.size > 0,
        p.addr_range.fits(),
        k > 0 ==> s[k - 1].addr_range.hi() <= p.addr_range.lo(),
        k < s.len() ==> p.addr_range.hi() <= s[k].addr_range.lo(),
    ensures
        ranges_wf(s.insert(k, p)),
{
    lemma_insert(s, k, p);
    let t = s.insert(k, p);
    assert forall|i: int, j: int| 0 <= i < j < t.len() implies (#[trigger] t[i]).addr_range.hi() <= (#[trigger] t[j]).addr_range.lo() by {
        if j < k {
        } else if j == k {
            if i < k - 1 {
                assert(s[i].addr_range.hi() <= s[k - 1].addr_range.lo());
            }
        } else if i < k {
            if j - 1 > k {
                assert(s[k].addr_range.hi() <= s[j - 1].addr_range.lo());
            }
            if i < k - 1 {
                assert(s[i].addr_range.hi() <= s[k - 1].addr_range.lo());
            }
            if k < s.len() {
                assert(s[i].addr_range.hi() <= s[k].addr_range.lo());
            }
        } else if i == k {
            if j - 1 > k {
                assert(s[k].addr_range.hi() <= s[j - 1].addr_range.lo());
            }
        } else {
            assert(s[i - 1].addr_range.hi() <= s[j - 1].addr_range.lo());
        }
    }
}

/// Extending by `g` and then by `h` extends by "`g`, else `h`".
proof fn lemma_extends_compose(
    s0: Seq<FlatRange>,
    s1: Seq<FlatRange>,
    s2: Seq<FlatRange>,
    g: spec_fn(int) -> Option<(Region, int)>,
    h: spec_fn(int) -> Option<(Region, int)>,
    t: spec_fn(int) -> Option<(Region, int)>,
)
    requires
        extends(s0, s1, g),
        extends(s1, s2, h),
        forall|x: int| #[trigger] t(x) == if g(x) is Some { g(x) } else { h(x) },
    ensures
        extends(s0, s2, t),
{
    assert forall|x: int| #[trigger] covers(s2, x) <==> covers(s0, x) || t(x) is Some by {
        assert(covers(s2, x) <==> covers(s1, x) || h(x) is Some);
        assert(covers(s1, x) <==> covers(s0, x) || g(x) is Some);
    }
    assert forall|j: int| 0 <= j < s0.len() implies s2.contains(#[trigger] s0[j]) by {
        assert(s1.contains(s0[j]));
        let m = choose|m: int| 0 <= m < s1.len() && s1[m] == s0[j];
        assert(s2.contains(s1[m]));
    }
    assert forall|i: int, x: int|
        0 <= i < s2.len() && #[trigger] s2[i].addr_range.contains(x) && !covers(s0, x) implies agrees(s2[i], t(x)) by {
        assert(covers(s2, x));
        if covers(s1, x) {
            let m = choose|m: int| 0 <= m < s1.len() && (#[trigger] s1[m]).addr_range.contains(x);
            assert(s2.contains(s1[m]));
            let p = choose|p: int| 0 <= p < s2.len() && s2[p] == s1[m];
            lemma_unique_range(s2, p, i, x);
            assert(agrees(s1[m], g(x)));
            assert(g(x) is Some);
        } else {
            assert(agrees(s2[i], h(x)));
            assert(g(x) is None);
        }
    }
}

/// Extending by a function is extending by any pointwise-equal one.
proof fn lemma_extends_same(
    s0: Seq<FlatRange>,
    s1: Seq<FlatRange>,
    f: spec_fn(int) -> Option<(Region, int)>,
    g: spec_fn(int) -> Option<(Region, int)>,
)
    requires
        extends(s0, s1, f),
        forall|x: int| #[trigger] f(x) == g(x),
    ensures
        extends(s0, s1, g),
{
    assert forall|x: int| #[trigger] covers(s1, x) <==> covers(s0, x) || g(x) is Some by {
        assert(f(x) == g(x));
    }
    assert forall|i: int, x: int|
        0 <= i < s1.len() && #[trigger] s1[i].addr_range.contains(x) && !covers(s0, x) implies agrees(s1[i], g(x)) by {
        assert(f(x) == g(x));
    }
}

/// A well-formed view extends itself by nothing.
proof fn lemma_extends_refl(s: Seq<FlatRange>, f: spec_fn(int) -> Option<(Region, int)>)
    requires
        ranges_wf(s),
        forall|x: int| #[trigger] f(x) is None,
    ensures
        extends(s, s, f),
{
    assert forall|j: int| 0 <= j < s.len() implies s.contains(#[trigger] s[j]) by {
    }
    assert forall|x: int| #[trigger] covers(s, x) <==> covers(s, x) || f(x) is Some by {
        assert(f(x) is None);
    }
}

/// Success on all siblings implies success on each prefix of them.
proof fn lemma_children_ok_prefix(cs: Seq<Region>, k: int, base: int, lo: int, hi: int)
    requires
        children_ok(cs, base, lo, hi),
        0 <= k <= cs.len(),
    ensures
        children_ok(cs.take(k), base, lo, hi),
    decreases cs.len() - k,
{
    if k == cs.len() {
        assert(cs.take(k) =~= cs);
    } else {
        lemma_children_ok_prefix(cs, k + 1, base, lo, hi);
        assert(cs.take(k + 1).subrange(0, k) =~= cs.take(k));
    }
}


/// Where the view holds a range of the leaf `leaf` placed at `abs`, it
/// holds every candidate address `[a, b)` of that leaf.
pub open spec fn filled_before(old_fv: Seq<FlatRange>, leaf: Region, abs: int, a: int, b: int) -> bool {
    forall|m: int|
        0 <= m < old_fv.len() && #[trigger] owned_by(old_fv[m], leaf.key(), abs) ==> forall|y: int|
            a <= y < b ==> #[trigger] covers(old_fv, y)
}

/// A range that merging leaf `leaf` (placed at `abs`) into `old_fv` adds:
/// owned by the leaf, within the candidate `[a, b)`, on addresses that
/// `old_fv` left open.
pub open spec fn is_new_piece(old_fv: Seq<FlatRange>, fr: FlatRange, leaf: Region, abs: int, a: int, b: int) -> bool {
    &&& owned_by(fr, leaf.key(), abs)
    &&& a <= fr.addr_range.lo()
    &&& fr.addr_range.hi() <= b
    &&& forall|x: int| #[trigger] fr.addr_range.contains(x) ==> !covers(old_fv, x)
    &&& !in_gap(old_fv, a, b, fr.addr_range.lo() - 1)
    &&& !in_gap(old_fv, a, b, fr.addr_range.hi())
}

/// `new` is `old` with leaf `leaf`, placed at `abs`, merged in over the
/// candidate `[a, b)`: the ranges of `old` all stay, the candidate's
/// addresses are added, and every other range of `new` is one whole gap of
/// `old` within the candidate, owned by the leaf. This fixes `new`: its
/// ranges are those of `old` and one per gap, in address order.
pub open spec fn merge_result(old: Seq<FlatRange>, new: Seq<FlatRange>, leaf: Region, abs: int, a: int, b: int) -> bool {
    &&& ranges_wf(new)
    &&& forall|x: int| #[trigger] covers(new, x) <==> covers(old, x) || (a <= x < b)
    &&& forall|j: int| 0 <= j < old.len() ==> new.contains(#[trigger] old[j])
    &&& forall|m: int| 0 <= m < new.len() ==> old.contains(#[trigger] new[m]) || is_new_piece(old, new[m], leaf, abs, a, b)
}

/// Flattening the subtree `r`, placed at `base + r.offset` and clipped to
/// `[lo, hi)`, into the view `old` succeeds and yields `new`: a leaf is
/// merged in over its clipped range; a container passes its clipped window
/// to its children and renders them one after the other, in order.
pub open spec fn renders_into(r: Region, base: int, lo: int, hi: int, old: Seq<FlatRange>, new: Seq<FlatRange>) -> bool
    decreases r,
{
    let abs = base + r.offset.0;
    let clo = spec_max(lo, abs);
    let chi = spec_min(hi, abs + r.size);
    &&& meets_window(r, base, lo, hi)
    &&& if r.region_type == RegionType::Container {
        children_render(r.subregions@, abs, clo, chi, old, new)
    } else {
        merge_result(old, new, r, abs, clo, chi)
    }
}

/// `s` is a view reached part way through rendering siblings; it names
/// the view between two of them.
pub open spec fn stage(s: Seq<FlatRange>) -> bool {
    true
}

/// Rendering the siblings `cs` one after the other into `old` succeeds
/// and yields `new`.
pub open spec fn children_render(cs: Seq<Region>, base: int, lo: int, hi: int, old: Seq<FlatRange>, new: Seq<FlatRange>) -> bool
    decreases cs,
{
    if cs.len() == 0 {
        new == old
    } else {
        exists|mid: Seq<FlatRange>|
            #[trigger] stage(mid) && children_render(cs.subrange(0, cs.len() - 1), base, lo, hi, old, mid)
                && renders_into(cs[cs.len() - 1], base, lo, hi, mid, new)
    }
}

/// Flattening the subtree `r` into `old` fails, leaving `new`: where `r`
/// misses its window the view is untouched; in a container, the children
/// before the first failing one are rendered and that child fails.
pub open spec fn fails_into(r: Region, base: int, lo: int, hi: int, old: Seq<FlatRange>, new: Seq<FlatRange>) -> bool
    decreases r,
{
    let abs = base + r.offset.0;
    if !meets_window(r, base, lo, hi) {
        new == old
    } else if r.region_type == RegionType::Container {
        children_fail(r.subregions@, abs, spec_max(lo, abs), spec_min(hi, abs + r.size), old, new)
    } else {
        false
    }
}

/// Rendering the siblings `cs` one after the other into `old` stops at
/// the first one that fails, leaving `new`.
pub open spec fn children_fail(cs: Seq<Region>, base: int, lo: int, hi: int, old: Seq<FlatRange>, new: Seq<FlatRange>) -> bool
    decreases cs,
{
    cs.len() > 0 && (children_fail(cs.subrange(0, cs.len() - 1), base, lo, hi, old, new) || exists|mid: Seq<FlatRange>|
        #[trigger] children_render(cs.subrange(0, cs.len() - 1), base, lo, hi, old, mid) && fails_into(
            cs[cs.len() - 1],
            base,
            lo,
            hi,
            mid,
            new,
        ))
}

/// The siblings before the last render and the last fails: the siblings
/// fail.
proof fn lemma_children_fail_last(
    cs: Seq<Region>,
    base: int,
    lo: int,
    hi: int,
    old: Seq<FlatRange>,
    mid: Seq<FlatRange>,
    new: Seq<FlatRange>,
)
    requires
        cs.len() > 0,
        children_render(cs.subrange(0, cs.len() - 1), base, lo, hi, old, mid),
        fails_into(cs[cs.len() - 1], base, lo, hi, mid, new),
    ensures
        children_fail(cs, base, lo, hi, old, new),
{
    reveal_with_fuel(children_fail, 2);
}

/// A failure among the first `k` siblings is a failure among all of them.
proof fn lemma_children_fail_extend(
    cs: Seq<Region>,
    k: int,
    base: int,
    lo: int,
    hi: int,
    old: Seq<FlatRange>,
    new: Seq<FlatRange>,
)
    requires
        0 <= k <= cs.len(),
        children_fail(cs.take(k), base, lo, hi, old, new),
    ensures
        children_fail(cs, base, lo, hi, old, new),
    decreases cs.len() - k,
{
    if k == cs.len() {
        assert(cs.take(k) =~= cs);
    } else {
        assert(cs.take(k + 1).subrange(0, k) =~= cs.take(k));
        lemma_children_fail_extend(cs, k + 1, base, lo, hi, old, new);
    }
}

/// `x` is an address of the candidate `[a, b)` that `old_fv` leaves open.
pub open spec fn in_gap(old_fv: Seq<FlatRange>, a: int, b: int, x: int) -> bool {
    a <= x < b && !covers(old_fv, x)
}

/// State of merging leaf `leaf` (placed at `abs`, candidate `[a, b)`)
/// into `old_fv`: `s` is the view so far, the candidate is placed below
/// `start`, and the ranges from `index` on are untouched ones of `old_fv`.
#[verifier::opaque]
pub open spec fn merge_inv(
    old_fv: Seq<FlatRange>,
    s: Seq<FlatRange>,
    leaf: Region,
    abs: int,
    a: int,
    b: int,
    start: int,
    index: int,
    mx: bool,
) -> bool {
    &&& ranges_wf(s)
    &&& mx ==> maximal(s)
    &&& 0 <= index <= s.len()
    &&& forall|m: int| 0 <= m < index ==> (#[trigger] s[m]).addr_range.hi() <= start
    &&& forall|x: int| #[trigger] covers(s, x) <==> covers(old_fv, x) || (a <= x < start)
    &&& forall|j: int| 0 <= j < old_fv.len() ==> s.contains(#[trigger] old_fv[j])
    &&& forall|m: int| 0 <= m < s.len() ==> old_fv.contains(#[trigger] s[m]) || is_new_piece(old_fv, s[m], leaf, abs, a, b)
    &&& forall|m: int| index <= m < s.len() ==> old_fv.contains(#[trigger] s[m])
    &&& start == a || start == b || covers(old_fv, start - 1) || covers(old_fv, start)
}

proof fn lemma_merge_start(
    old_fv: Seq<FlatRange>,
    leaf: Region,
    abs: int,
    a: int,
    b: int,
    wlo: int,
    whi: int,
    mx: bool,
)
    requires
        ranges_wf(old_fv),
        mx ==> maximal(old_fv) && owners_filled(old_fv, wlo, whi) && spec_max(wlo, abs) == a && b == spec_min(
            whi,
            abs + leaf.size,
        ),
        abs <= a < b,
    ensures
        merge_inv(old_fv, old_fv, leaf, abs, a, b, a, 0, mx),
        mx ==> filled_before(old_fv, leaf, abs, a, b),
{
    reveal(merge_inv);
    if mx {
        assert forall|m: int| 0 <= m < old_fv.len() && #[trigger] owned_by(old_fv[m], leaf.key(), abs) implies forall|y: int|
            a <= y < b ==> #[trigger] covers(old_fv, y) by {
            assert forall|y: int| a <= y < b implies #[trigger] covers(old_fv, y) by {
                assert(in_owner(old_fv[m], y));
            }
        }
    }
    assert forall|j: int| 0 <= j < old_fv.len() implies old_fv.contains(#[trigger] old_fv[j]) by {
    }
}

proof fn lemma_merge_at(
    old_fv: Seq<FlatRange>,
    s: Seq<FlatRange>,
    leaf: Region,
    abs: int,
    a: int,
    b: int,
    start: int,
    index: int,
    mx: bool,
)
    requires
        merge_inv(old_fv, s, leaf, abs, a, b, start, index, mx),
        0 <= index < s.len(),
    ensures
        s[index].addr_range.fits(),
        s[index].addr_range.size > 0,
{
    reveal(merge_inv);
}

proof fn lemma_merge_skip(
    old_fv: Seq<FlatRange>,
    s: Seq<FlatRange>,
    leaf: Region,
    abs: int,
    a: int,
    b: int,
    start: int,
    index: int,
    mx: bool,
)
    requires
        merge_inv(old_fv, s, leaf, abs, a, b, start, index, mx),
        0 <= index < s.len(),
        s[index].addr_range.hi() <= start,
    ensures
        merge_inv(old_fv, s, leaf, abs, a, b, start, index + 1, mx),
        old_fv.contains(s[index]),
{
    reveal(merge_inv);
}

/// Stepping over the range at `index`, which holds `start`.
proof fn lemma_merge_over(
    old_fv: Seq<FlatRange>,
    s: Seq<FlatRange>,
    leaf: Region,
    abs: int,
    a: int,
    b: int,
    start: int,
    index: int,
    mx: bool,
)
    requires
        merge_inv(old_fv, s, leaf, abs, a, b, start, index, mx),
        0 <= index < s.len(),
        s[index].addr_range.lo() <= start < s[index].addr_range.hi(),
        a <= start <= b,
    ensures
        merge_inv(old_fv, s, leaf, abs, a, b, spec_min(s[index].addr_range.hi(), b), index, mx),
        s[index].addr_range.hi() <= b ==> merge_inv(old_fv, s, leaf, abs, a, b, s[index].addr_range.hi(), index + 1, mx),
        old_fv.contains(s[index]),
{
    reveal(merge_inv);
    let fr = s[index];
    let st = spec_min(fr.addr_range.hi(), b);
    assert forall|x: int| #[trigger] covers(s, x) <==> covers(old_fv, x) || (a <= x < st) by {
        if start <= x < st {
            assert(s[index].addr_range.contains(x));
        }
        if covers(s, x) && start <= x && !covers(old_fv, x) {
            assert(x < start);
        }
    }
}

/// Inserting a new piece `[start, ..)` of the leaf at `index`, in the gap
/// before the range there (or at the end of the view).
#[verifier::rlimit(80)]
proof fn lemma_merge_insert(
    old_fv: Seq<FlatRange>,
    s: Seq<FlatRange>,
    leaf: Region,
    abs: int,
    a: int,
    b: int,
    start: int,
    index: int,
    piece: FlatRange,
    mx: bool,
)
    requires
        merge_inv(old_fv, s, leaf, abs, a, b, start, index, mx),
        mx ==> filled_before(old_fv, leaf, abs, a, b),
        index > 0 ==> old_fv.contains(s[index - 1]),
        0 <= index <= s.len(),
        piece.addr_range.base.0 == start,
        piece.addr_range.size > 0,
        start + piece.addr_range.size <= b,
        index < s.len() ==> start + piece.addr_range.size <= s[index].addr_range.lo(),
        index == s.len() ==> start + piece.addr_range.size == b,
        start + piece.addr_range.size == b || start + piece.addr_range.size == s[index].addr_range.lo(),
        owned_by(piece, leaf.key(), abs),
        a <= start,
        b <= u64_top(),
    ensures
        merge_inv(old_fv, s.insert(index, piece), leaf, abs, a, b, start + piece.addr_range.size, index + 1, mx),
        s.insert(index, piece).len() == s.len() + 1,
        index < s.len() ==> s.insert(index, piece)[index + 1] == s[index],
{
    reveal(merge_inv);
    lemma_insert(s, index, piece);
    lemma_insert_wf(s, index, piece);
    let t = s.insert(index, piece);
    let end = start + piece.addr_range.size;
    assert forall|x: int| #[trigger] piece.addr_range.contains(x) implies !covers(old_fv, x) by {
        if covers(s, x) {
            let m = choose|m: int| 0 <= m < s.len() && (#[trigger] s[m]).addr_range.contains(x);
            if m > index {
                assert(s[index].addr_range.hi() <= s[m].addr_range.lo());
            }
        }
    }
    assert(piece.addr_range.contains(start));
    assert(!covers(old_fv, start));
    if end < b {
        assert(old_fv.contains(s[index]));
        let m = choose|m: int| 0 <= m < old_fv.len() && old_fv[m] == s[index];
        assert(old_fv[m].addr_range.contains(end));
        assert(covers(old_fv, end));
    }
    assert(!in_gap(old_fv, a, b, start - 1));
    assert(!in_gap(old_fv, a, b, end));
if mx {
        assert forall|i: int| 0 <= i < t.len() - 1 implies !continues(#[trigger] t[i], t[i + 1]) by {
            if i + 1 < index {
                assert(t[i] == s[i] && t[i + 1] == s[i + 1]);
            } else if i + 1 == index {
                assert(t[i] == s[i] && t[i + 1] == piece);
                if continues(t[i], t[i + 1]) {
                    let m = choose|m: int| 0 <= m < old_fv.len() && old_fv[m] == s[i];
                    assert(owned_by(old_fv[m], leaf.key(), abs));
                    assert(covers(old_fv, start));
                }
            } else if i == index {
                assert(t[i] == piece && t[i + 1] == s[i]);
                if continues(t[i], t[i + 1]) {
                    assert(old_fv.contains(s[i]));
                    let m = choose|m: int| 0 <= m < old_fv.len() && old_fv[m] == s[i];
                    assert(owned_by(old_fv[m], leaf.key(), abs));
                    assert(covers(old_fv, start));
                }
            } else {
                assert(t[i] == s[i - 1] && t[i + 1] == s[i]);
            }
        }
    }
    assert forall|m: int| 0 <= m < index + 1 implies (#[trigger] t[m]).addr_range.hi() <= end by {
        if m < index {
            assert(t[m] == s[m]);
        }
    }
    assert forall|x: int| #[trigger] covers(t, x) <==> covers(old_fv, x) || (a <= x < end) by {
        assert(covers(t, x) <==> covers(s, x) || piece.addr_range.contains(x));
    }
    assert forall|j: int| 0 <= j < old_fv.len() implies t.contains(#[trigger] old_fv[j]) by {
        assert(s.contains(old_fv[j]));
    }
    assert forall|m: int| 0 <= m < t.len() implies old_fv.contains(#[trigger] t[m]) || is_new_piece(old_fv, t[m], leaf, abs, a, b) by {
        if m < index {
            assert(t[m] == s[m]);
        } else if m > index {
            assert(t[m] == s[m - 1]);
        }
    }
    assert forall|m: int| index + 1 <= m < t.len() implies old_fv.contains(#[trigger] t[m]) by {
        assert(t[m] == s[m - 1]);
    }
}

/// Once the whole candidate `[a, b)` is placed, the merge is done.
proof fn lemma_merge_done(
    old_fv: Seq<FlatRange>,
    s: Seq<FlatRange>,
    leaf: Region,
    abs: int,
    a: int,
    b: int,
    wlo: int,
    whi: int,
    mx: bool,
)
    requires
        exists|index: int| merge_inv(old_fv, s, leaf, abs, a, b, b, index, mx),
        mx ==> owners_filled(old_fv, wlo, whi) && spec_max(wlo, abs) == a && b == spec_min(whi, abs + leaf.size),
    ensures
        ranges_wf(s),
        merge_result(old_fv, s, leaf, abs, a, b),
        mx ==> maximal(s) && owners_filled(s, wlo, whi),
        forall|x: int| #[trigger] covers(s, x) <==> covers(old_fv, x) || (a <= x < b),
        forall|j: int| 0 <= j < old_fv.len() ==> s.contains(#[trigger] old_fv[j]),
        forall|i: int, x: int|
            0 <= i < s.len() && #[trigger] s[i].addr_range.contains(x) && !covers(old_fv, x) ==> owned_by(s[i], leaf.key(), abs),
{
    reveal(merge_inv);
    let index = choose|index: int| merge_inv(old_fv, s, leaf, abs, a, b, b, index, mx);
    if mx {
        assert forall|i: int, y: int| 0 <= i < s.len() && #[trigger] in_owner(s[i], y) && wlo <= y < whi implies covers(s, y) by {
            if old_fv.contains(s[i]) {
                let m = choose|m: int| 0 <= m < old_fv.len() && old_fv[m] == s[i];
                assert(in_owner(old_fv[m], y));
                assert(covers(old_fv, y));
            } else {
                assert(a <= y < b);
            }
        }
    }
    assert forall|i: int, x: int|
        0 <= i < s.len() && #[trigger] s[i].addr_range.contains(x) && !covers(old_fv, x) implies owned_by(s[i], leaf.key(), abs) by {
        if old_fv.contains(s[i]) {
            let m = choose|m: int| 0 <= m < old_fv.len() && old_fv[m] == s[i];
            assert(old_fv[m].addr_range.contains(x));
        }
    }
}

impl Region {
    /// A copy of this region without its children.
    fn leaf_copy(&self) -> (r: Region)
        ensures
            r.key() == self.key(),
            r.subregions@.len() == 0,
    {
        Region {
            region_type: self.region_type,
            priority: self.priority,
            size: self.size,
            offset: self.offset,
            mem_mapping: self.mem_mapping,
            ops: self.ops,
            subregions: Vec::new(),
        }
    }

    /// Merge this leaf into `flat_view`: the addresses of the leaf within
    /// `addr_range` that no range of the view holds yet become new ranges
    /// owned by the leaf, one per gap; existing ranges stay as they are.
    fn render_terminate_region(
        &self,
        base: GuestAddress,
        addr_range: AddressRange,
        flat_view: &mut FlatView,
        Ghost(wlo): Ghost<int>,
        Ghost(whi): Ghost<int>,
    ) -> (r: Result<(), AddressSpaceError>)
        requires
            ranges_wf(old(flat_view).0@),
            self.region_type != RegionType::Container,
        ensures
            r is Ok <==> render_ok(*self, base.0 as int, addr_range.lo(), addr_range.hi()),
            r is Ok ==> extends(
                old(flat_view).0@,
                final(flat_view).0@,
                |x: int| leaf_at(*self, base.0 as int, addr_range.lo(), addr_range.hi(), x),
            ),
            r is Err ==> r == Err::<(), _>(AddressSpaceError::NoIntersection) && *final(flat_view) == *old(flat_view),
            r is Ok ==> merge_result(
                old(flat_view).0@,
                final(flat_view).0@,
                *self,
                base.0 + self.offset.0,
                spec_max(addr_range.lo(), base.0 + self.offset.0),
                spec_min(addr_range.hi(), base.0 + self.offset.0 + self.size),
            ),
            r is Ok && maximal(old(flat_view).0@) && owners_filled(old(flat_view).0@, wlo, whi) && window_matches(
                base.0 + self.offset.0,
                self.size as int,
                addr_range.lo(),
                addr_range.hi(),
                wlo,
                whi,
            ) ==> maximal(final(flat_view).0@) && owners_filled(final(flat_view).0@, wlo, whi),
    {
        let region_base = match base.checked_add(self.offset.0) {
            Some(b) => b,
            None => return Err(AddressSpaceError::NoIntersection),
        };
        let region_range = AddressRange::new(region_base, self.size);
        let intersect = match region_range.find_intersection(addr_range) {
            Some(i) => i,
            None => return Err(AddressSpaceError::NoIntersection),
        };
        let ghost a = intersect.lo();
        let ghost b = intersect.hi();
        let ghost abs = region_base.0 as int;
        let ghost old_fv = flat_view.0@;
        let ghost leaf = *self;
        let ghost mx = maximal(old_fv) && owners_filled(old_fv, wlo, whi) && window_matches(
            abs,
            self.size as int,
            addr_range.lo(),
            addr_range.hi(),
            wlo,
            whi,
        );
        proof {
            lemma_merge_start(old_fv, leaf, abs, a, b, wlo, whi, mx);
        }

        let mut offset_in_region = intersect.base.offset_from(region_range.base);
        let mut start = intersect.base.0;
        let mut remain = intersect.size;
        let mut index: usize = 0;
        while index < flat_view.0.len()
            invariant_except_break
                remain > 0,
                index > 0 ==> old_fv.contains(flat_view.0@[index - 1]),
            invariant
                merge_inv(old_fv, flat_view.0@, leaf, abs, a, b, start as int, index as int, mx),
                index <= flat_view.0@.len(),
                mx ==> filled_before(old_fv, leaf, abs, a, b),
                leaf == *self,
                a <= start,
                start + remain == b,
                b <= u64_top(),
                0 <= abs <= a,
                offset_in_region == start - abs,
            ensures
                merge_inv(old_fv, flat_view.0@, leaf, abs, a, b, start as int, index as int, mx),
                remain > 0 ==> index > 0 ==> old_fv.contains(flat_view.0@[index - 1]),
                start + remain == b,
                offset_in_region == start - abs,
                remain == 0 || index == flat_view.0@.len(),
            decreases flat_view.0@.len() - index, remain,
        {
            proof {
                lemma_merge_at(old_fv, flat_view.0@, leaf, abs, a, b, start as int, index as int, mx);
            }
            let fr_lo = flat_view.0[index].addr_range.base.0;
            let fr_hi = fr_lo + flat_view.0[index].addr_range.size;
            if start >= fr_hi {
                proof {
                    lemma_merge_skip(old_fv, flat_view.0@, leaf, abs, a, b, start as int, index as int, mx);
                }
                index += 1;
            } else {
                let to_end = fr_hi - start;
                let step = if to_end < remain { to_end } else { remain };
                if start < fr_lo {
                    let gap = fr_lo - start;
                    let range_size = if remain < gap { remain } else { gap };
                    let piece = FlatRange {
                        addr_range: AddressRange { base: GuestAddress(start), size: range_size },
                        owner: self.leaf_copy(),
                        offset_in_region,
                    };
                    let ghost s0 = flat_view.0@;
                    flat_view.0.insert(index, piece);
                    proof {
                        lemma_merge_insert(old_fv, s0, leaf, abs, a, b, start as int, index as int, piece, mx);
                    }
                    index += 1;
                    if remain < gap {
                        offset_in_region = offset_in_region + remain;
                        start = start + remain;
                        remain = 0;
                        break;
                    }
                    proof {
                        lemma_merge_over(old_fv, flat_view.0@, leaf, abs, a, b, fr_lo as int, index as int, mx);
                    }
                } else {
                    proof {
                        lemma_merge_over(old_fv, flat_view.0@, leaf, abs, a, b, start as int, index as int, mx);
                    }
                }
                offset_in_region = offset_in_region + step;
                start = start + step;
                remain = remain - step;
                if remain == 0 {
                    break;
                }
                if index >= flat_view.0.len() {
                    break;
                }
                index += 1;
            }
        }
        if remain > 0 {
            let piece = FlatRange {
                addr_range: AddressRange { base: GuestAddress(start), size: remain },
                owner: self.leaf_copy(),
                offset_in_region,
            };
            let ghost s0 = flat_view.0@;
            flat_view.0.insert(index, piece);
            proof {
                lemma_merge_insert(old_fv, s0, leaf, abs, a, b, start as int, index as int, piece, mx);
            }
        }
        proof {
            lemma_merge_done(old_fv, flat_view.0@, leaf, abs, a, b, wlo, whi, mx);
            let f = |x: int| leaf_at(*self, base.0 as int, addr_range.lo(), addr_range.hi(), x);
            let s = flat_view.0@;
            assert forall|x: int| #[trigger] f(x) == if a <= x < b { Some((*self, abs)) } else { None::<(Region, int)> } by {
            }
            assert forall|x: int| #[trigger] covers(s, x) <==> covers(old_fv, x) || f(x) is Some by {
            }
            assert forall|i: int, x: int|
                0 <= i < s.len() && #[trigger] s[i].addr_range.contains(x) && !covers(old_fv, x) implies agrees(s[i], f(x)) by {
                assert(covers(s, x));
            }
        }
        Ok(())
    }
}


impl Region {
    /// Render the subtree into `flat_view`, children in priority order, so
    /// that ranges of higher-priority siblings shadow later ones.
    fn render_region_pass(
        &self,
        base: GuestAddress,
        addr_range: AddressRange,
        flat_view: &mut FlatView,
        Ghost(wlo): Ghost<int>,
        Ghost(whi): Ghost<int>,
    ) -> (r: Result<(), AddressSpaceError>)
        requires
            ranges_wf(old(flat_view).0@),
        ensures
            r is Ok <==> render_ok(*self, base.0 as int, addr_range.lo(), addr_range.hi()),
            r is Ok ==> extends(
                old(flat_view).0@,
                final(flat_view).0@,
                |x: int| leaf_at(*self, base.0 as int, addr_range.lo(), addr_range.hi(), x),
            ),
            !meets_window(*self, base.0 as int, addr_range.lo(), addr_range.hi()) ==> r is Err && *final(flat_view)
                == *old(flat_view),
            r is Ok ==> renders_into(*self, base.0 as int, addr_range.lo(), addr_range.hi(), old(flat_view).0@, final(flat_view).0@),
            r is Err ==> r == Err::<(), _>(AddressSpaceError::NoIntersection) && fails_into(
                *self,
                base.0 as int,
                addr_range.lo(),
                addr_range.hi(),
                old(flat_view).0@,
                final(flat_view).0@,
            ),
            r is Ok && self.wf() && maximal(old(flat_view).0@) && owners_filled(old(flat_view).0@, wlo, whi)
                && window_matches(base.0 + self.offset.0, self.size as int, addr_range.lo(), addr_range.hi(), wlo, whi)
                ==> maximal(final(flat_view).0@) && owners_filled(final(flat_view).0@, wlo, whi),
        decreases self,
    {
        if self.region_type != RegionType::Container {
            return self.render_terminate_region(base, addr_range, flat_view, Ghost(wlo), Ghost(whi));
        }
        let region_base = match base.checked_add(self.offset.0) {
            Some(b) => b,
            None => return Err(AddressSpaceError::NoIntersection),
        };
        let region_range = AddressRange::new(region_base, self.size);
        let intersect = match region_range.find_intersection(addr_range) {
            Some(i) => i,
            None => return Err(AddressSpaceError::NoIntersection),
        };
        let ghost cs = self.subregions@;
        let ghost abs = region_base.0 as int;
        let ghost lo = intersect.lo();
        let ghost hi = intersect.hi();
        let ghost old_fv = flat_view.0@;
        let ghost mx = self.wf() && maximal(old_fv) && owners_filled(old_fv, wlo, whi) && window_matches(
            abs,
            self.size as int,
            addr_range.lo(),
            addr_range.hi(),
            wlo,
            whi,
        );
        proof {
            lemma_extends_refl(old_fv, |x: int| children_at(cs.take(0), abs, lo, hi, x));
        }
        let mut k: usize = 0;
        while k < self.subregions.len()
            invariant
                cs == self.subregions@,
                old_fv == old(flat_view).0@,
                meets_window(*self, base.0 as int, addr_range.lo(), addr_range.hi()),
                mx ==> self.wf() && window_matches(abs, self.size as int, addr_range.lo(), addr_range.hi(), wlo, whi),
                mx ==> maximal(flat_view.0@) && owners_filled(flat_view.0@, wlo, whi),
                self.region_type == RegionType::Container,
                k <= cs.len(),
                lo == spec_max(addr_range.lo(), abs),
                hi == spec_min(addr_range.hi(), abs + self.size),
                abs == base.0 + self.offset.0,
                abs == region_base.0,
                intersect.lo() == lo,
                intersect.hi() == hi,
                children_ok(cs.take(k as int), abs, lo, hi),
                children_render(cs.take(k as int), abs, lo, hi, old_fv, flat_view.0@),
                extends(old_fv, flat_view.0@, |x: int| children_at(cs.take(k as int), abs, lo, hi, x)),
            decreases cs.len() - k,
        {
            let ghost before = flat_view.0@;
            let sub_r = &self.subregions[k];
            proof {
                if mx {
                    assert(sub_r.fits_in(self.size));
                    assert(sub_r.wf());
                }
            }
            let res = sub_r.render_region_pass(region_base, intersect, flat_view, Ghost(wlo), Ghost(whi));
            if res.is_err() {
                proof {
                    if children_ok(cs, abs, lo, hi) {
                        lemma_children_ok_prefix(cs, k + 1, abs, lo, hi);
                        let t = cs.take(k + 1);
                        assert(t.subrange(0, k as int) =~= cs.take(k as int));
                        assert(t[k as int] == *sub_r);
                        assert(t.len() == k + 1);
                        assert(render_ok(*sub_r, abs, lo, hi));
                    }
                    assert(!render_ok(*self, base.0 as int, addr_range.lo(), addr_range.hi()));
                    let t = cs.take(k + 1);
                    assert(t.subrange(0, k as int) =~= cs.take(k as int));
                    assert(t[k as int] == *sub_r);
                    assert(t.len() == k + 1);
                    assert(fails_into(t[t.len() - 1], abs, lo, hi, before, flat_view.0@));
                    assert(children_render(t.subrange(0, t.len() - 1), abs, lo, hi, old_fv, before));
                    let fv_now = flat_view.0@;
                    lemma_children_fail_last(t, abs, lo, hi, old_fv, before, fv_now);
                    lemma_children_fail_extend(cs, k + 1, abs, lo, hi, old_fv, flat_view.0@);
                    assert(fails_into(*self, base.0 as int, addr_range.lo(), addr_range.hi(), old_fv, fv_now));
                }
                return res;
            }
            proof {
                let t = cs.take(k + 1);
                assert(t.subrange(0, k as int) =~= cs.take(k as int));
                assert(t[k as int] == *sub_r);
                assert(t.len() == k + 1);
                assert(children_ok(t, abs, lo, hi));
                assert(renders_into(t[k as int], abs, lo, hi, before, flat_view.0@));
                assert(stage(before));
                assert(children_render(t, abs, lo, hi, old_fv, flat_view.0@));
                assert forall|x: int| #[trigger] children_at(t, abs, lo, hi, x) == if children_at(cs.take(k as int), abs, lo, hi, x) is Some {
                    children_at(cs.take(k as int), abs, lo, hi, x)
                } else {
                    leaf_at(*sub_r, region_base.0 as int, intersect.lo(), intersect.hi(), x)
                } by {
                }
                lemma_extends_compose(
                    old_fv,
                    before,
                    flat_view.0@,
                    |x: int| children_at(cs.take(k as int), abs, lo, hi, x),
                    |x: int| leaf_at(*sub_r, region_base.0 as int, intersect.lo(), intersect.hi(), x),
                    |x: int| children_at(cs.take(k + 1), abs, lo, hi, x),
                );
            }
            k += 1;
        }
        proof {
            assert(cs.take(cs.len() as int) =~= cs);
            assert(children_ok(cs, abs, lo, hi));
            assert(children_render(cs, abs, lo, hi, old_fv, flat_view.0@));
            assert(render_ok(*self, base.0 as int, addr_range.lo(), addr_range.hi()));
            lemma_extends_same(
                old_fv,
                flat_view.0@,
                |x: int| children_at(cs.take(cs.len() as int), abs, lo, hi, x),
                |x: int| leaf_at(*self, base.0 as int, addr_range.lo(), addr_range.hi(), x),
            );
        }
        Ok(())
    }

    /// Flatten the subtree placed at `base` into the ranges that serve the
    /// addresses of `addr_range`.
    ///
    /// On success the view is sorted and disjoint, holds exactly the
    /// addresses that some leaf serves, and each address is served by the
    /// leaf that wins it by priority.
    pub fn generate_flatview(&self, base: GuestAddress, addr_range: AddressRange) -> (r: Result<FlatView, AddressSpaceError>)
        requires
            self.wf(),
        ensures
            r is Ok <==> render_ok(*self, base.0 as int, addr_range.lo(), addr_range.hi()),
            r is Err ==> r == Err::<FlatView, _>(AddressSpaceError::NoIntersection),
            r matches Ok(fv) ==> fv.renders(*self, base.0 as int, addr_range.lo(), addr_range.hi()),
            r matches Ok(fv) ==> renders_into(
                *self,
                base.0 as int,
                addr_range.lo(),
                addr_range.hi(),
                Seq::empty(),
                fv.0@,
            ),
    {
        let mut flat_view = FlatView(Vec::new());
        let res = self.render_region_pass(base, addr_range, &mut flat_view, Ghost(addr_range.lo()), Ghost(addr_range.hi()));
        match res {
            Ok(()) => {
                proof {
                    let f = |x: int| leaf_at(*self, base.0 as int, addr_range.lo(), addr_range.hi(), x);
                    let s = flat_view.0@;
                    assert forall|x: int| #[trigger] covers(s, x) <==> f(x) is Some by {
                        assert(!covers(Seq::<FlatRange>::empty(), x));
                    }
                    assert forall|i: int, x: int| 0 <= i < s.len() && #[trigger] s[i].addr_range.contains(x) implies agrees(s[i], f(x)) by {
                        assert(!covers(Seq::<FlatRange>::empty(), x));
                    }
                }
                Ok(flat_view)
            },
            Err(_) => Err(AddressSpaceError::NoIntersection),
        }
    }
}

impl FlatView {
    /// This view is the flattening of `r` placed at `base`, clipped to
    /// `[lo, hi)`: ranges are sorted and disjoint, no range merely continues
    /// its predecessor, an address is held iff a leaf serves it, and the
    /// holding range agrees with that leaf.
    pub open spec fn renders(self, r: Region, base: int, lo: int, hi: int) -> bool {
        &&& ranges_wf(self.0@)
        &&& maximal(self.0@)
        &&& forall|x: int| #[trigger] covers(self.0@, x) <==> leaf_at(r, base, lo, hi, x) is Some
        &&& forall|i: int, x: int|
            0 <= i < self.0@.len() && #[trigger] self.0@[i].addr_range.contains(x) ==> agrees(
                self.0@[i],
                leaf_at(r, base, lo, hi, x),
            )
    }
}


/// The leaf that serves `x` is a well-formed non-container (where the tree
/// is well formed) that starts at or after `base` and holds `x`.
pub proof fn lemma_leaf_at_is_leaf(r: Region, base: int, lo: int, hi: int, x: int)
    requires
        leaf_at(r, base, lo, hi, x) is Some,
    ensures
        ({
            let p = leaf_at(r, base, lo, hi, x)->0;
            &&& p.1 >= base + r.offset.0
            &&& p.0.region_type != RegionType::Container
            &&& p.1 <= x < p.1 + p.0.size
            &&& lo <= x < hi
            &&& r.wf() ==> p.0.wf()
        }),
    decreases r, 1int,
{
    if r.region_type == RegionType::Container {
        let abs = base + r.offset.0;
        lemma_children_at_is_leaf(r, r.subregions@, abs, spec_max(lo, abs), spec_min(hi, abs + r.size), x);
    }
}

proof fn lemma_children_at_is_leaf(parent: Region, cs: Seq<Region>, base: int, lo: int, hi: int, x: int)
    requires
        children_at(cs, base, lo, hi, x) is Some,
        parent.wf() ==> forall|i: int| 0 <= i < cs.len() ==> (#[trigger] cs[i]).wf(),
        decreases_to!(parent => cs),
    ensures
        ({
            let p = children_at(cs, base, lo, hi, x)->0;
            &&& p.1 >= base
            &&& p.0.region_type != RegionType::Container
            &&& p.1 <= x < p.1 + p.0.size
            &&& lo <= x < hi
            &&& parent.wf() ==> p.0.wf()
        }),
    decreases parent, 0int, cs.len(),
{
    let init = cs.subrange(0, cs.len() - 1);
    if children_at(init, base, lo, hi, x) is Some {
        lemma_children_at_is_leaf(parent, init, base, lo, hi, x);
    } else {
        let last = cs[cs.len() - 1];
        assert(decreases_to!(parent => last));
        lemma_leaf_at_is_leaf(last, base, lo, hi, x);
    }
}


/// Any two ranges of a flat view share no address, and the earlier one in
/// the view lies wholly below the later one.
pub proof fn lemma_flat_view_disjoint(fv: FlatView, r: Region, base: int, lo: int, hi: int, i: int, j: int)
    requires
        fv.renders(r, base, lo, hi),
        0 <= i < j < fv.0@.len(),
    ensures
        fv.0@[i].addr_range.hi() <= fv.0@[j].addr_range.lo(),
        forall|x: int| !(fv.0@[i].addr_range.contains(x) && #[trigger] fv.0@[j].addr_range.contains(x)),
{
}

/// An address is held by the flat view iff some leaf of the tree serves
/// it; the range that holds it then agrees with the leaf that wins it.
pub proof fn lemma_flat_view_coverage(fv: FlatView, r: Region, base: int, lo: int, hi: int, x: int)
    requires
        fv.renders(r, base, lo, hi),
    ensures
        covers(fv.0@, x) <==> leaf_at(r, base, lo, hi, x) is Some,
        forall|i: int| 0 <= i < fv.0@.len() && #[trigger] fv.0@[i].addr_range.contains(x) ==> agrees(fv.0@[i], leaf_at(r, base, lo, hi, x)),
{
}

/// Among siblings, an address goes to the first (highest-priority) one
/// that serves it: every sibling before the winner serves nothing there,
/// and where none serves it, no sibling does.
pub proof fn lemma_first_sibling_wins(cs: Seq<Region>, base: int, lo: int, hi: int, x: int)
    ensures
        children_at(cs, base, lo, hi, x) is None ==> forall|j: int| 0 <= j < cs.len() ==> #[trigger] leaf_at(cs[j], base, lo, hi, x) is None,
        children_at(cs, base, lo, hi, x) is Some ==> exists|k: int|
            0 <= k < cs.len() && leaf_at(cs[k], base, lo, hi, x) == children_at(cs, base, lo, hi, x) && forall|j: int|
                0 <= j < k ==> #[trigger] leaf_at(cs[j], base, lo, hi, x) is None,
    decreases cs.len(),
{
    if cs.len() > 0 {
        let init = cs.subrange(0, cs.len() - 1);
        lemma_first_sibling_wins(init, base, lo, hi, x);
        if children_at(init, base, lo, hi, x) is Some {
            let k = choose|k: int|
                0 <= k < init.len() && leaf_at(init[k], base, lo, hi, x) == children_at(init, base, lo, hi, x) && forall|j: int|
                    0 <= j < k ==> #[trigger] leaf_at(init[j], base, lo, hi, x) is None;
            assert(init[k] == cs[k]);
            assert forall|j: int| 0 <= j < k implies #[trigger] leaf_at(cs[j], base, lo, hi, x) is None by {
                assert(init[j] == cs[j]);
            }
        } else {
            assert forall|j: int| 0 <= j < cs.len() - 1 implies #[trigger] leaf_at(cs[j], base, lo, hi, x) is None by {
                assert(init[j] == cs[j]);
            }
        }
    }
}


/// `p` and `q` are the same range for the same owner.
pub open spec fn same_range(p: FlatRange, q: FlatRange) -> bool {
    &&& p.addr_range == q.addr_range
    &&& p.offset_in_region == q.offset_in_region
    &&& p.owner.key() == q.owner.key()
}

/// Two views hold the same ranges in the same order.
pub open spec fn same_ranges(s1: Seq<FlatRange>, s2: Seq<FlatRange>) -> bool {
    &&& s1.len() == s2.len()
    &&& forall|i: int| 0 <= i < s1.len() ==> same_range(#[trigger] s1[i], s2[i])
}

/// Wherever both views hold an address, they give it the same owner.
pub open spec fn same_service(s1: Seq<FlatRange>, s2: Seq<FlatRange>) -> bool {
    forall|i: int, j: int, x: int|
        0 <= i < s1.len() && 0 <= j < s2.len() && #[trigger] s1[i].addr_range.contains(x) && #[trigger] s2[j].addr_range.contains(
            x,
        ) ==> s1[i].owner.key() == s2[j].owner.key() && s1[i].owner_base() == s2[j].owner_base()
}

/// Both views are well formed and maximal, hold the same addresses and
/// serve them alike.
pub open spec fn equivalent_views(s1: Seq<FlatRange>, s2: Seq<FlatRange>) -> bool {
    &&& ranges_wf(s1)
    &&& ranges_wf(s2)
    &&& maximal(s1)
    &&& maximal(s2)
    &&& forall|x: int| #[trigger] covers(s1, x) == covers(s2, x)
    &&& same_service(s1, s2)
    &&& same_service(s2, s1)
}

proof fn lemma_equivalent_symmetric(s1: Seq<FlatRange>, s2: Seq<FlatRange>)
    requires
        equivalent_views(s1, s2),
    ensures
        equivalent_views(s2, s1),
{
    assert forall|x: int| #[trigger] covers(s2, x) == covers(s1, x) by {
        assert(covers(s1, x) == covers(s2, x));
    }
}

/// With equal ranges before `i`, the `i`-th range of `s1` does not start
/// below that of `s2`.
proof fn lemma_lo_not_below(s1: Seq<FlatRange>, s2: Seq<FlatRange>, i: int)
    requires
        equivalent_views(s1, s2),
        0 <= i < s1.len(),
        forall|j: int| 0 <= j < i && j < s2.len() ==> same_range(#[trigger] s1[j], s2[j]),
    ensures
        i < s2.len() ==> s1[i].addr_range.lo() >= s2[i].addr_range.lo(),
        i >= s2.len() ==> false,
{
    let x = s1[i].addr_range.lo();
    assert(s1[i].addr_range.contains(x));
    assert(covers(s1, x));
    assert(covers(s2, x));
    let m = choose|m: int| 0 <= m < s2.len() && (#[trigger] s2[m]).addr_range.contains(x);
    if m < i {
        assert(same_range(s1[m], s2[m]));
        assert(s1[m].addr_range.contains(x));
        lemma_unique_range(s1, m, i, x);
    } else if m > i && i < s2.len() {
        assert(s2[i].addr_range.hi() <= s2[m].addr_range.lo());
    }
}

/// With equal starts, the `i`-th range of `s1` does not end below that of
/// `s2`: else the next range of `s1` would continue it.
proof fn lemma_hi_not_below(s1: Seq<FlatRange>, s2: Seq<FlatRange>, i: int)
    requires
        equivalent_views(s1, s2),
        0 <= i < s1.len(),
        i < s2.len(),
        s1[i].addr_range.lo() == s2[i].addr_range.lo(),
    ensures
        s1[i].addr_range.hi() >= s2[i].addr_range.hi(),
{
    let h = s1[i].addr_range.hi();
    if h < s2[i].addr_range.hi() {
        assert(s2[i].addr_range.contains(h));
        assert(covers(s2, h));
        assert(covers(s1, h));
        let m = choose|m: int| 0 <= m < s1.len() && (#[trigger] s1[m]).addr_range.contains(h);
        if m < i {
            assert(s1[m].addr_range.hi() <= s1[i].addr_range.lo());
        }
        assert(m > i);
        if m > i + 1 {
            assert(s1[i + 1].addr_range.hi() <= s1[m].addr_range.lo());
        }
        assert(s1[i].addr_range.hi() <= s1[i + 1].addr_range.lo());
        assert(s1[i + 1].addr_range.contains(h));
        assert(s1[i].addr_range.contains(h - 1));
        assert(s2[i].addr_range.contains(h - 1));
        assert(!continues(s1[i], s1[i + 1]));
    }
}

proof fn lemma_same_at(s1: Seq<FlatRange>, s2: Seq<FlatRange>, i: int)
    requires
        equivalent_views(s1, s2),
        0 <= i < s1.len(),
        forall|j: int| 0 <= j < i && j < s2.len() ==> same_range(#[trigger] s1[j], s2[j]),
    ensures
        i < s2.len(),
        same_range(s1[i], s2[i]),
{
    lemma_lo_not_below(s1, s2, i);
    lemma_equivalent_symmetric(s1, s2);
    assert forall|j: int| 0 <= j < i && j < s1.len() implies same_range(#[trigger] s2[j], s1[j]) by {
        assert(same_range(s1[j], s2[j]));
    }
    lemma_lo_not_below(s2, s1, i);
    lemma_hi_not_below(s1, s2, i);
    lemma_hi_not_below(s2, s1, i);
    let x = s1[i].addr_range.lo();
    assert(s1[i].addr_range.contains(x));
    assert(s2[i].addr_range.contains(x));
}

proof fn lemma_same_prefix(s1: Seq<FlatRange>, s2: Seq<FlatRange>, n: int)
    requires
        equivalent_views(s1, s2),
        0 <= n <= s1.len(),
    ensures
        n <= s2.len(),
        forall|j: int| 0 <= j < n ==> same_range(#[trigger] s1[j], s2[j]),
    decreases n,
{
    if n > 0 {
        lemma_same_prefix(s1, s2, n - 1);
        lemma_same_at(s1, s2, n - 1);
    }
}

/// Equivalent views are the same ranges in the same order.
proof fn lemma_equivalent_same(s1: Seq<FlatRange>, s2: Seq<FlatRange>)
    requires
        equivalent_views(s1, s2),
    ensures
        same_ranges(s1, s2),
{
    lemma_same_prefix(s1, s2, s1.len() as int);
    lemma_equivalent_symmetric(s1, s2);
    lemma_same_prefix(s2, s1, s2.len() as int);
}

/// The flattening of a tree is unique: two views that both render the
/// same tree over the same window hold the same ranges, in the same order,
/// for the same owners.
pub proof fn lemma_flattening_unique(v1: FlatView, v2: FlatView, r: Region, base: int, lo: int, hi: int)
    requires
        v1.renders(r, base, lo, hi),
        v2.renders(r, base, lo, hi),
    ensures
        same_ranges(v1.0@, v2.0@),
{
    let s1 = v1.0@;
    let s2 = v2.0@;
    assert forall|x: int| #[trigger] covers(s1, x) == covers(s2, x) by {
        assert(covers(s1, x) <==> leaf_at(r, base, lo, hi, x) is Some);
        assert(covers(s2, x) <==> leaf_at(r, base, lo, hi, x) is Some);
    }
    assert forall|i: int, j: int, x: int|
        0 <= i < s1.len() && 0 <= j < s2.len() && #[trigger] s1[i].addr_range.contains(x) && #[trigger] s2[j].addr_range.contains(
            x,
        ) implies s1[i].owner.key() == s2[j].owner.key() && s1[i].owner_base() == s2[j].owner_base() by {
        assert(agrees(s1[i], leaf_at(r, base, lo, hi, x)));
        assert(agrees(s2[j], leaf_at(r, base, lo, hi, x)));
    }
    assert forall|i: int, j: int, x: int|
        0 <= i < s2.len() && 0 <= j < s1.len() && #[trigger] s2[i].addr_range.contains(x) && #[trigger] s1[j].addr_range.contains(
            x,
        ) implies s2[i].owner.key() == s1[j].owner.key() && s2[i].owner_base() == s1[j].owner_base() by {
        assert(agrees(s2[i], leaf_at(r, base, lo, hi, x)));
        assert(agrees(s1[j], leaf_at(r, base, lo, hi, x)));
    }
    lemma_equivalent_same(s1, s2);
}


/// Flattening succeeds on siblings iff it succeeds on each of them.
pub proof fn lemma_children_ok_each(cs: Seq<Region>, base: int, lo: int, hi: int)
    ensures
        children_ok(cs, base, lo, hi) <==> forall|i: int| 0 <= i < cs.len() ==> #[trigger] render_ok(cs[i], base, lo, hi),
    decreases cs.len(),
{
    if cs.len() > 0 {
        let init = cs.subrange(0, cs.len() - 1);
        let last = cs[cs.len() - 1];
        lemma_children_ok_each(init, base, lo, hi);
        assert(children_ok(cs, base, lo, hi) == (children_ok(init, base, lo, hi) && render_ok(last, base, lo, hi)));
        if forall|i: int| 0 <= i < cs.len() ==> #[trigger] render_ok(cs[i], base, lo, hi) {
            assert forall|i: int| 0 <= i < init.len() implies #[trigger] render_ok(init[i], base, lo, hi) by {
                assert(init[i] == cs[i]);
            }
            assert(render_ok(last, base, lo, hi));
        }
        if children_ok(cs, base, lo, hi) {
            assert forall|i: int| 0 <= i < cs.len() implies #[trigger] render_ok(cs[i], base, lo, hi) by {
                if i < cs.len() - 1 {
                    assert(init[i] == cs[i]);
                }
            }
        }
    }
}


/// `x` lies on a path from `r` down to a leaf: within the window `[lo, hi)`
/// and within `r` placed at `base`, and, where `r` is a container, on such
/// a path from one of its children (placed at `r`'s absolute address, with
/// the window clipped to `r`).
pub open spec fn on_leaf_path(r: Region, base: int, lo: int, hi: int, x: int) -> bool
    decreases r,
{
    let abs = base + r.offset.0;
    &&& lo <= x < hi
    &&& abs <= x < abs + r.size
    &&& r.region_type == RegionType::Container ==> exists|i: int|
        0 <= i < r.subregions@.len() && on_leaf_path(
            #[trigger] r.subregions@[i],
            abs,
            spec_max(lo, abs),
            spec_min(hi, abs + r.size),
            x,
        )
}

/// Coverage as paths: a leaf serves `x` iff `x` lies within the window and
/// within every region along some path from `r` down to a leaf. Which leaf
/// serves it is settled by `lemma_first_sibling_wins`.
pub proof fn lemma_coverage_is_leaf_path(r: Region, base: int, lo: int, hi: int, x: int)
    ensures
        leaf_at(r, base, lo, hi, x) is Some <==> on_leaf_path(r, base, lo, hi, x),
    decreases r,
{
    if r.region_type == RegionType::Container {
        let cs = r.subregions@;
        let abs = base + r.offset.0;
        let clo = spec_max(lo, abs);
        let chi = spec_min(hi, abs + r.size);
        lemma_first_sibling_wins(cs, abs, clo, chi, x);
        assert forall|i: int| 0 <= i < cs.len() implies (leaf_at(#[trigger] cs[i], abs, clo, chi, x) is Some <==> on_leaf_path(
            cs[i],
            abs,
            clo,
            chi,
            x,
        )) by {
            lemma_coverage_is_leaf_path(cs[i], abs, clo, chi, x);
        }
        if leaf_at(r, base, lo, hi, x) is Some {
            let k = choose|k: int|
                0 <= k < cs.len() && leaf_at(cs[k], abs, clo, chi, x) == children_at(cs, abs, clo, chi, x) && forall|j: int|
                    0 <= j < k ==> #[trigger] leaf_at(cs[j], abs, clo, chi, x) is None;
            lemma_leaf_at_is_leaf(cs[k], abs, clo, chi, x);
            assert(on_leaf_path(cs[k], abs, clo, chi, x));
        }
        if on_leaf_path(r, base, lo, hi, x) {
            let i = choose|i: int| 0 <= i < cs.len() && on_leaf_path(#[trigger] cs[i], abs, clo, chi, x);
            assert(leaf_at(cs[i], abs, clo, chi, x) is Some);
        }
    }
}

} // verus!
