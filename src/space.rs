use vstd::prelude::*;

use crate::address::{spec_max, spec_min, u64_top, AddressRange, GuestAddress};
use crate::error::AddressSpaceError;
use crate::flat_view::{children_ok, covers, lemma_children_ok_each, lemma_flattening_unique, render_ok, same_ranges, FlatRange, FlatView};
use crate::region::{is_insert_position, Region, RegionAccess, RegionType};

verus! {

/// One piece of a guest access: the guest address it starts at, and what
/// it resolves to within the region that serves it.
#[derive(Clone, Copy, Debug, PartialEq, Eq, Structural)]
pub struct GuestAccess {
    pub addr: GuestAddress,
    pub access: RegionAccess,
}

/// The root region of a guest address space and its current flat view.
#[derive(Debug)]
pub struct AddressSpace {
    pub root: Region,
    pub flat_view: FlatView,
}

/// The index of the range of `fv` that holds `x` (meaningful where one does).
pub open spec fn range_index(fv: Seq<FlatRange>, x: int) -> int {
    choose|i: int| 0 <= i < fv.len() && (#[trigger] fv[i]).addr_range.contains(x)
}

/// How an access of `n` bytes from guest address `cur` splits over the
/// ranges of `fv`: one piece per range it crosses, each resolved by the
/// range's owner at the matching offset; the first address that no range
/// holds, or the first failure of an owner, ends it with an error.
pub open spec fn plan_spec(fv: Seq<FlatRange>, cur: int, n: int) -> Result<Seq<GuestAccess>, AddressSpaceError>
    decreases n,
{
    if n <= 0 {
        Ok(Seq::empty())
    } else if !covers(fv, cur) {
        Err(AddressSpaceError::NoFlatRange(cur as u64))
    } else {
        let fr = fv[range_index(fv, cur)];
        let len = spec_min(n, fr.addr_range.hi() - cur);
        if len <= 0 {
            Ok(Seq::empty())
        } else {
            match fr.owner.access_spec(
                GuestAddress(fr.owner_base() as u64),
                (fr.offset_in_region + (cur - fr.addr_range.lo())) as u64,
                len as u64,
            ) {
                Err(e) => Err(e),
                Ok(acc) => match plan_spec(fv, cur + len, n - len) {
                    Ok(rest) => Ok(seq![GuestAccess { addr: GuestAddress(cur as u64), access: acc }] + rest),
                    Err(e) => Err(e),
                },
            }
        }
    }
}

/// `done` followed by what `rest` resolves to.
pub open spec fn prepend(done: Seq<GuestAccess>, rest: Result<Seq<GuestAccess>, AddressSpaceError>) -> Result<
    Seq<GuestAccess>,
    AddressSpaceError,
> {
    match rest {
        Ok(s) => Ok(done + s),
        Err(e) => Err(e),
    }
}

impl AddressSpace {
    /// The tree is well formed and the view is its flattening from address
    /// zero over the root's size.
    pub open spec fn wf(self) -> bool {
        &&& self.root.wf()
        &&& render_ok(self.root, 0, 0, self.root.size as int)
        &&& self.flat_view.renders(self.root, 0, 0, self.root.size as int)
    }

    /// An address space over `root`, with its view built.
    pub fn new(root: Region) -> (r: Result<AddressSpace, AddressSpaceError>)
        requires
            root.wf(),
        ensures
            r is Ok <==> render_ok(root, 0, 0, root.size as int),
            r is Err ==> r == Err::<AddressSpace, _>(AddressSpaceError::NoIntersection),
            r matches Ok(s) ==> s.wf() && s.root == root,
    {
        let fv = root.generate_flatview(GuestAddress(0), AddressRange::new(GuestAddress(0), root.size))?;
        Ok(AddressSpace { root, flat_view: fv })
    }

    /// The root region.
    pub fn root(&self) -> (r: &Region)
        ensures
            *r == self.root,
    {
        &self.root
    }

    /// The current flat view.
    pub fn flat_view(&self) -> (r: &FlatView)
        ensures
            *r == self.flat_view,
    {
        &self.flat_view
    }

    /// Rebuild the view from the tree. On failure the previous view stays.
    pub fn update_topology(&mut self) -> (r: Result<(), AddressSpaceError>)
        requires
            old(self).root.wf(),
        ensures
            final(self).root == old(self).root,
            r is Ok <==> render_ok(old(self).root, 0, 0, old(self).root.size as int),
            r is Ok ==> final(self).wf(),
            r is Err ==> r == Err::<(), _>(AddressSpaceError::NoIntersection) && *final(self) == *old(self),
    {
        let fv = self.root.generate_flatview(GuestAddress(0), AddressRange::new(GuestAddress(0), self.root.size))?;
        self.flat_view = fv;
        Ok(())
    }

    /// Install `root` as the whole tree and rebuild the view; where the view
    /// cannot be built, the previous tree and view stay and `root` is
    /// handed back in the error.
    pub fn replace_root(&mut self, root: Region) -> (r: Result<Region, (Region, AddressSpaceError)>)
        requires
            old(self).wf(),
            root.wf(),
        ensures
            final(self).wf(),
            render_ok(root, 0, 0, root.size as int) ==> (r matches Ok(prev) && prev == old(self).root
                && final(self).root == root),
            !render_ok(root, 0, 0, root.size as int) ==> (r matches Err(p) && p.0 == root && p.1
                == AddressSpaceError::NoIntersection && *final(self) == *old(self)),
    {
        match root.generate_flatview(GuestAddress(0), AddressRange::new(GuestAddress(0), root.size)) {
            Ok(fv) => {
                let mut prev = root;
                std::mem::swap(&mut self.root, &mut prev);
                self.flat_view = fv;
                Ok(prev)
            },
            Err(e) => Err((root, e)),
        }
    }

    /// Add `child` to the root at `offset` and rebuild the view. Where the
    /// view cannot be rebuilt, the child is taken out again and the
    /// previous view stays.
    pub fn add_subregion(&mut self, child: Region, offset: u64) -> (r: Result<(), AddressSpaceError>)
        requires
            old(self).wf(),
            child.wf(),
        ensures
            final(self).root.wf(),
            final(self).root.key() == old(self).root.key(),
            r is Ok ==> final(self).wf() && exists|k: int|
                is_insert_position(old(self).root.subregions@, child.priority, k)
                    && final(self).root.subregions@ == old(self).root.subregions@.insert(k, child.with_offset(offset)),
            r is Err ==> final(self).root.subregions@ == old(self).root.subregions@ && final(self).flat_view
                == old(self).flat_view,
            old(self).root.region_type != RegionType::Container ==> r == Err::<(), _>(
                AddressSpaceError::RegionType(old(self).root.region_type),
            ),
            old(self).root.region_type == RegionType::Container && offset + child.size > old(self).root.size ==> r
                == Err::<(), _>(AddressSpaceError::Overflow(offset)),
            old(self).root.region_type == RegionType::Container && offset + child.size <= old(self).root.size && r is Err
                ==> r == Err::<(), _>(AddressSpaceError::NoIntersection),
            old(self).root.region_type == RegionType::Container && offset + child.size <= old(self).root.size ==> (r
                is Ok <==> exists|k: int|
                is_insert_position(old(self).root.subregions@, child.priority, k) && render_ok(
                    Region {
                        subregions: final(self).root.subregions,
                        ..old(self).root
                    },
                    0,
                    0,
                    old(self).root.size as int,
                ) && final(self).root.subregions@ == old(self).root.subregions@.insert(k, child.with_offset(offset))),
    {
        let k = self.root.insert_subregion(child, offset)?;
        let ghost added = self.root.subregions@;
        match self.root.generate_flatview(GuestAddress(0), AddressRange::new(GuestAddress(0), self.root.size)) {
            Ok(fv) => {
                self.flat_view = fv;
                Ok(())
            },
            Err(e) => {
                let ghost s0 = old(self).root.subregions@;
                self.root.subregions.remove(k);
                proof {
                    assert(self.root.subregions@ =~= s0);
                    assert forall|i: int| 0 <= i < self.root.subregions@.len() implies (#[trigger] self.root.subregions@[i]).fits_in(
                        self.root.size,
                    ) && self.root.subregions@[i].wf() by {
                        assert(self.root.subregions@[i] == s0[i]);
                    }
                }
                Err(e)
            },
        }
    }
}

impl AddressSpace {
    /// Remove the root's first child with the identity of `child` and
    /// rebuild the view (which cannot fail: fewer regions still flatten).
    pub fn delete_subregion(&mut self, child: &Region) -> (r: Result<(), AddressSpaceError>)
        requires
            old(self).wf(),
        ensures
            final(self).wf(),
            final(self).root.key() == old(self).root.key(),
            (exists|k: int|
                crate::region::is_first_match(old(self).root.subregions@, *child, k) && r is Ok
                    && final(self).root.subregions@ == old(self).root.subregions@.remove(k)) || (forall|i: int|
                0 <= i < old(self).root.subregions@.len() ==> !crate::region::same_identity(
                    #[trigger] old(self).root.subregions@[i],
                    *child,
                )) && r == Err::<(), _>(AddressSpaceError::NoMatchedRegion) && *final(self) == *old(self),
    {
        let ghost s0 = self.root.subregions@;
        self.root.delete_subregion(child)?;
        proof {
            let root = self.root;
            let s1 = root.subregions@;
            let abs = root.offset.0 as int;
            let lo = spec_max(0, abs);
            let hi = spec_min(root.size as int, abs + root.size);
            if root.region_type == RegionType::Container {
                lemma_children_ok_each(s0, abs, lo, hi);
                lemma_children_ok_each(s1, abs, lo, hi);
                let k = choose|k: int| crate::region::is_first_match(s0, *child, k) && s1 == s0.remove(k);
                assert(render_ok(old(self).root, 0, 0, root.size as int));
                assert(children_ok(s0, abs, lo, hi));
                assert forall|i: int| 0 <= i < s1.len() implies #[trigger] render_ok(s1[i], abs, lo, hi) by {
                    if i >= k {
                        assert(s1[i] == s0[i + 1]);
                    } else {
                        assert(s1[i] == s0[i]);
                    }
                }
            }
            assert(render_ok(root, 0, 0, root.size as int));
        }
        let fv = match self.root.generate_flatview(GuestAddress(0), AddressRange::new(GuestAddress(0), self.root.size)) {
            Ok(fv) => fv,
            Err(e) => return Err(e),
        };
        self.flat_view = fv;
        Ok(())
    }

    /// Highest end address over the ranges of the view; 0 for an empty view.
    pub fn memory_end_address(&self) -> (r: GuestAddress)
        requires
            self.wf(),
        ensures
            self.flat_view.0@.len() == 0 ==> r.0 == 0,
            self.flat_view.0@.len() > 0 ==> r.0 == self.flat_view.0@.last().addr_range.hi(),
            forall|i: int| 0 <= i < self.flat_view.0@.len() ==> (#[trigger] self.flat_view.0@[i]).addr_range.hi() <= r.0,
    {
        let n = self.flat_view.0.len();
        if n == 0 {
            return GuestAddress(0);
        }
        let last = &self.flat_view.0[n - 1];
        proof {
            let s = self.flat_view.0@;
            assert forall|i: int| 0 <= i < s.len() implies (#[trigger] s[i]).addr_range.hi() <= s.last().addr_range.hi() by {
                if i < s.len() - 1 {
                    assert(s[i].addr_range.hi() <= s[s.len() - 1].addr_range.lo());
                }
            }
        }
        last.addr_range.end_addr()
    }

    /// Index of the range of the view that holds `addr`, by binary search.
    pub fn find_flatrange(&self, addr: GuestAddress) -> (r: Option<usize>)
        requires
            crate::flat_view::ranges_wf(self.flat_view.0@),
        ensures
            r matches Some(i) ==> i < self.flat_view.0@.len() && self.flat_view.0@[i as int].addr_range.contains(
                addr.0 as int,
            ),
            r is None <==> !covers(self.flat_view.0@, addr.0 as int),
    {
        let ghost s = self.flat_view.0@;
        let mut left: usize = 0;
        let mut right: usize = self.flat_view.0.len();
        while left < right
            invariant
                s == self.flat_view.0@,
                crate::flat_view::ranges_wf(s),
                left <= right <= s.len(),
                forall|j: int| 0 <= j < left ==> (#[trigger] s[j]).addr_range.lo() <= addr.0,
                forall|j: int| right <= j < s.len() ==> (#[trigger] s[j]).addr_range.lo() > addr.0,
            decreases right - left,
        {
            let mid = left + (right - left) / 2;
            if self.flat_view.0[mid].addr_range.base.0 <= addr.0 {
                proof {
                    assert forall|j: int| 0 <= j < mid + 1 implies (#[trigger] s[j]).addr_range.lo() <= addr.0 by {
                        if j < mid {
                            assert(s[j].addr_range.hi() <= s[mid as int].addr_range.lo());
                        }
                    }
                }
                left = mid + 1;
            } else {
                proof {
                    assert forall|j: int| mid <= j < s.len() implies (#[trigger] s[j]).addr_range.lo() > addr.0 by {
                        if j > mid {
                            assert(s[mid as int].addr_range.hi() <= s[j].addr_range.lo());
                        }
                    }
                }
                right = mid;
            }
        }
        if left == 0 {
            return None;
        }
        let i = left - 1;
        let fr = &self.flat_view.0[i];
        if addr.0 < fr.addr_range.base.0 + fr.addr_range.size {
            Some(i)
        } else {
            proof {
                assert forall|j: int| 0 <= j < s.len() implies !(#[trigger] s[j]).addr_range.contains(addr.0 as int) by {
                    if j < i {
                        assert(s[j].addr_range.hi() <= s[i as int].addr_range.lo());
                    }
                }
            }
            None
        }
    }

    fn plan(&self, addr: GuestAddress, count: u64) -> (r: Result<Vec<GuestAccess>, AddressSpaceError>)
        requires
            self.wf(),
        ensures
            match r {
                Ok(v) => plan_spec(self.flat_view.0@, addr.0 as int, count as int) == Ok::<_, AddressSpaceError>(v@),
                Err(e) => plan_spec(self.flat_view.0@, addr.0 as int, count as int) == Err::<Seq<GuestAccess>, _>(e),
            },
    {
        let ghost s = self.flat_view.0@;
        let mut out: Vec<GuestAccess> = Vec::new();
        let mut cur: u64 = addr.0;
        let mut remain: u64 = count;
        while remain > 0
            invariant
                s == self.flat_view.0@,
                self.wf(),
                plan_spec(s, addr.0 as int, count as int) == prepend(out@, plan_spec(s, cur as int, remain as int)),
            decreases remain,
        {
            let i = match self.find_flatrange(GuestAddress(cur)) {
                Some(i) => i,
                None => return Err(AddressSpaceError::NoFlatRange(cur)),
            };
            let fr = &self.flat_view.0[i];
            proof {
                let j = range_index(s, cur as int);
                crate::flat_view::lemma_unique_range(s, i as int, j, cur as int);
                crate::flat_view::lemma_leaf_at_is_leaf(self.root, 0, 0, self.root.size as int, cur as int);
            }
            let to_end = fr.addr_range.base.0 + fr.addr_range.size - cur;
            let len = if remain < to_end { remain } else { to_end };
            let owner_base = fr.addr_range.base.0 - fr.offset_in_region;
            let offset = fr.offset_in_region + (cur - fr.addr_range.base.0);
            let acc = match fr.owner.access(GuestAddress(owner_base), offset, len) {
                Ok(a) => a,
                Err(e) => return Err(e),
            };
            let ghost before = out@;
            out.push(GuestAccess { addr: GuestAddress(cur), access: acc });
            proof {
                assert(out@ == before + seq![GuestAccess { addr: GuestAddress(cur), access: acc }]);
                let rest = plan_spec(s, cur + len, remain - len);
                match rest {
                    Ok(t) => {
                        assert(before + (seq![GuestAccess { addr: GuestAddress(cur), access: acc }] + t) =~= out@ + t);
                    },
                    Err(_) => {},
                }
            }
            cur = cur + len;
            remain = remain - len;
        }
        proof {
            assert(out@ + Seq::<GuestAccess>::empty() =~= out@);
        }
        Ok(out)
    }

    /// Resolve a read of `count` bytes from guest address `addr` into the
    /// pieces to copy, one per flat range crossed.
    pub fn read(&self, addr: GuestAddress, count: u64) -> (r: Result<Vec<GuestAccess>, AddressSpaceError>)
        requires
            self.wf(),
        ensures
            match r {
                Ok(v) => plan_spec(self.flat_view.0@, addr.0 as int, count as int) == Ok::<_, AddressSpaceError>(v@),
                Err(e) => plan_spec(self.flat_view.0@, addr.0 as int, count as int) == Err::<Seq<GuestAccess>, _>(e),
            },
    {
        self.plan(addr, count)
    }

    /// Resolve a write of `count` bytes to guest address `addr` into the
    /// pieces to fill, one per flat range crossed.
    pub fn write(&self, addr: GuestAddress, count: u64) -> (r: Result<Vec<GuestAccess>, AddressSpaceError>)
        requires
            self.wf(),
        ensures
            match r {
                Ok(v) => plan_spec(self.flat_view.0@, addr.0 as int, count as int) == Ok::<_, AddressSpaceError>(v@),
                Err(e) => plan_spec(self.flat_view.0@, addr.0 as int, count as int) == Err::<Seq<GuestAccess>, _>(e),
            },
    {
        self.plan(addr, count)
    }
}


/// Rebuilding the view of an unchanged tree gives the same view: any two
/// well-formed address spaces over the same root hold the same flat ranges,
/// in the same order, for the same owners. (`update_topology` keeps the
/// root and, on success, leaves a well-formed space.)
pub proof fn lemma_rebuild_idempotent(s1: AddressSpace, s2: AddressSpace)
    requires
        s1.wf(),
        s2.wf(),
        s1.root == s2.root,
    ensures
        same_ranges(s1.flat_view.0@, s2.flat_view.0@),
{
    lemma_flattening_unique(s1.flat_view, s2.flat_view, s1.root, 0, 0, s1.root.size as int);
}


/// An access succeeds wherever the view holds every address it touches:
/// on a well-formed space, `n` bytes from `cur` (fewer than `usize::MAX`)
/// that all lie in flat ranges always resolve.
pub proof fn lemma_covered_access_resolves(space: AddressSpace, cur: int, n: int)
    requires
        space.wf(),
        0 <= cur,
        n < usize::MAX,
        forall|x: int| cur <= x < cur + n ==> #[trigger] covers(space.flat_view.0@, x),
    ensures
        plan_spec(space.flat_view.0@, cur, n) is Ok,
    decreases n,
{
    let fv = space.flat_view.0@;
    if n > 0 {
        assert(covers(fv, cur));
        let i = range_index(fv, cur);
        let fr = fv[i];
        let len = spec_min(n, fr.addr_range.hi() - cur);
        let last = cur + len - 1;
        assert(fr.addr_range.contains(cur));
        assert(fr.addr_range.contains(last));
        crate::flat_view::lemma_leaf_at_is_leaf(space.root, 0, 0, space.root.size as int, cur);
        crate::flat_view::lemma_leaf_at_is_leaf(space.root, 0, 0, space.root.size as int, last);
        assert forall|x: int| cur + len <= x < cur + len + (n - len) implies #[trigger] covers(fv, x) by {
            assert(cur <= x < cur + n);
        }
        lemma_covered_access_resolves(space, cur + len, n - len);
    }
}

} // verus!
