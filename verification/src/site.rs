//! Sites where a pattern can be formed, and the collection that holds them.
use vstd::prelude::*;
use crate::grid::{Bitmap, bitmap_shape};
use crate::pattern::{Goodness, exceeds};
use crate::state::{Point2, PATTERN_COMPLETION_NUMERATOR, PATTERN_COMPLETION_DENOMINATOR};

verus! {

/// Represents a site where a pattern can be formed
pub struct Site {
    /// Position of the site in the grid
    pub position: Point2,
    /// Custom bitmap for this site (if None, uses default)
    pub custom_bitmap: Option<Bitmap>,
    /// Whether this site is active (being used for pattern matching)
    pub is_active: bool,
}

/// Whether two positions are the same.
fn same_position(a: Point2, b: Point2) -> (r: bool)
    ensures
        r == (a == b),
{
    a.0 == b.0 && a.1 == b.1
}

impl Site {
    /// The bitmap that the site uses: its own, else `default_bitmap`.
    pub open spec fn bitmap_or(self, default_bitmap: Bitmap) -> Bitmap {
        match self.custom_bitmap {
            Some(custom) => custom,
            None => default_bitmap,
        }
    }

    /// Create a new site with default bitmap
    pub fn new(position: Point2) -> (r: Self)
        ensures
            r.position == position,
            r.custom_bitmap is None,
            r.is_active,
    {
        Site { position, custom_bitmap: None, is_active: true }
    }

    /// Create a new site with a custom bitmap
    pub fn with_custom_bitmap(position: Point2, bitmap: Bitmap) -> (r: Self)
        ensures
            r.position == position,
            r.custom_bitmap == Some(bitmap),
            r.is_active,
    {
        Site { position, custom_bitmap: Some(bitmap), is_active: true }
    }

    /// Get the bitmap for this site (custom or default)
    pub fn get_bitmap<'a>(&'a self, default_bitmap: &'a Bitmap) -> (r: &'a Bitmap)
        ensures
            *r == self.bitmap_or(*default_bitmap),
    {
        match &self.custom_bitmap {
            Some(custom) => custom,
            None => default_bitmap,
        }
    }

    /// Check if the pattern at this site is complete: its goodness exceeds
    /// `PATTERN_COMPLETION_NUMERATOR / PATTERN_COMPLETION_DENOMINATOR`.
    pub fn is_complete(&self, goodness: Goodness) -> (r: bool)
        ensures
            r == exceeds(
                goodness,
                PATTERN_COMPLETION_NUMERATOR as int,
                PATTERN_COMPLETION_DENOMINATOR as int,
            ),
            r == (goodness.matching * PATTERN_COMPLETION_DENOMINATOR > PATTERN_COMPLETION_NUMERATOR
                * goodness.total),
    {
        (goodness.matching as u128) * (PATTERN_COMPLETION_DENOMINATOR as u128)
            > (PATTERN_COMPLETION_NUMERATOR as u128) * (goodness.total as u128)
    }

    /// Deactivate this site (pattern is complete)
    pub fn deactivate(&mut self)
        ensures
            final(self).position == old(self).position,
            final(self).custom_bitmap == old(self).custom_bitmap,
            !final(self).is_active,
    {
        self.is_active = false;
    }

    /// Reactivate this site (for finding new patterns)
    pub fn reactivate(&mut self)
        ensures
            final(self).position == old(self).position,
            final(self).custom_bitmap == old(self).custom_bitmap,
            final(self).is_active,
    {
        self.is_active = true;
    }

    /// Move the site to a new position
    pub fn move_to(&mut self, new_position: Point2)
        ensures
            final(self).position == new_position,
            final(self).custom_bitmap == old(self).custom_bitmap,
            final(self).is_active == old(self).is_active,
    {
        self.position = new_position;
    }

    /// Get the dimensions of this site's bitmap
    pub fn get_dimensions<'a>(&'a self, default_bitmap: &'a Bitmap) -> (r: (usize, usize))
        ensures
            r == bitmap_shape(self.bitmap_or(*default_bitmap)),
    {
        let bitmap = self.get_bitmap(default_bitmap);
        bitmap.dim()
    }
}

/// The active sites of `s`, in order.
pub open spec fn active_sites(s: Seq<Site>) -> Seq<Site>
    decreases s.len(),
{
    if s.len() == 0 {
        Seq::empty()
    } else if s.last().is_active {
        active_sites(s.drop_last()).push(s.last())
    } else {
        active_sites(s.drop_last())
    }
}

/// Taking one more site into account extends the active list by that site if active.
pub proof fn lemma_active_sites_step(s: Seq<Site>, k: int)
    requires
        0 <= k < s.len(),
    ensures
        active_sites(s.take(k + 1)) == if s[k].is_active {
            active_sites(s.take(k)).push(s[k])
        } else {
            active_sites(s.take(k))
        },
{
    assert(s.take(k + 1).drop_last() =~= s.take(k));
}

/// The indices of the active sites of `s`, in order.
pub open spec fn active_positions(s: Seq<Site>) -> Seq<int>
    decreases s.len(),
{
    if s.len() == 0 {
        Seq::empty()
    } else if s.last().is_active {
        active_positions(s.drop_last()).push(s.len() - 1)
    } else {
        active_positions(s.drop_last())
    }
}

/// Taking one more site into account extends the active indices by its index if active.
pub proof fn lemma_active_positions_step(s: Seq<Site>, k: int)
    requires
        0 <= k < s.len(),
    ensures
        active_positions(s.take(k + 1)) == if s[k].is_active {
            active_positions(s.take(k)).push(k)
        } else {
            active_positions(s.take(k))
        },
{
    assert(s.take(k + 1).drop_last() =~= s.take(k));
}

/// The active indices, in increasing order, are those of the active sites:
/// the `k`-th names the `k`-th active site, and every active site is named.
pub proof fn lemma_active_positions(s: Seq<Site>)
    ensures
        active_positions(s).len() == active_sites(s).len(),
        forall|k: int|
            0 <= k < active_positions(s).len() ==> 0 <= #[trigger] active_positions(s)[k] < s.len()
                && s[active_positions(s)[k]] == active_sites(s)[k] && s[active_positions(
                s,
            )[k]].is_active,
        forall|k: int, l: int|
            0 <= k < l < active_positions(s).len() ==> #[trigger] active_positions(s)[k]
                < #[trigger] active_positions(s)[l],
        forall|i: int|
            0 <= i < s.len() && #[trigger] s[i].is_active ==> exists|k: int|
                0 <= k < active_positions(s).len() && active_positions(s)[k] == i,
    decreases s.len(),
{
    if s.len() > 0 {
        let t = s.drop_last();
        lemma_active_positions(t);
        assert forall|i: int| 0 <= i < s.len() && #[trigger] s[i].is_active implies exists|k: int|
            0 <= k < active_positions(s).len() && active_positions(s)[k] == i by {
            if i < s.len() - 1 {
                assert(t[i] == s[i]);
                let k = choose|k: int| 0 <= k < active_positions(t).len() && active_positions(t)[k] == i;
                assert(active_positions(s)[k] == i);
            } else {
                assert(active_positions(s)[active_positions(s).len() - 1] == i);
            }
        }
    }
}

/// The first index in `s` at which a site stands on `position`.
pub open spec fn is_first_at(s: Seq<Site>, position: Point2, k: int) -> bool {
    &&& 0 <= k < s.len()
    &&& s[k].position == position
    &&& forall|j: int| 0 <= j < k ==> #[trigger] s[j].position != position
}

/// Whether some site of `s` stands on `position`.
pub open spec fn has_site_at(s: Seq<Site>, position: Point2) -> bool {
    exists|i: int| 0 <= i < s.len() && #[trigger] s[i].position == position
}

/// Whether the rectangle of `shape` at `p` and the one of the same shape at
/// `q` overlap (half-open rectangles, in unbounded arithmetic).
pub open spec fn rects_overlap(p: Point2, q: Point2, shape: (usize, usize)) -> bool {
    &&& p.0 < q.0 + shape.0
    &&& p.0 + shape.0 > q.0
    &&& p.1 < q.1 + shape.1
    &&& p.1 + shape.1 > q.1
}

/// Whether the sums compared in `rects_overlap` fit in a `usize`.
pub open spec fn corner_sums_fit(p: Point2, q: Point2, shape: (usize, usize)) -> bool {
    &&& p.0 + shape.0 <= usize::MAX
    &&& p.1 + shape.1 <= usize::MAX
    &&& q.0 + shape.0 <= usize::MAX
    &&& q.1 + shape.1 <= usize::MAX
}

/// The shape of the bitmap that `site` uses.
pub open spec fn site_shape(site: Site, default_bitmap: Bitmap) -> (usize, usize) {
    bitmap_shape(site.bitmap_or(default_bitmap))
}

/// Whether the active site `s[i]`'s rectangle overlaps the one of the same
/// shape at `position`.
pub open spec fn site_overlaps(s: Seq<Site>, i: int, position: Point2, default_bitmap: Bitmap) -> bool {
    &&& s[i].is_active
    &&& rects_overlap(position, s[i].position, site_shape(s[i], default_bitmap))
}

/// Whether `position` collides with an active site of `s`.
pub open spec fn collides(s: Seq<Site>, position: Point2, default_bitmap: Bitmap) -> bool {
    exists|i: int| 0 <= i < s.len() && #[trigger] site_overlaps(s, i, position, default_bitmap)
}

/// The arithmetic of the collision test does not overflow before the first
/// collision is found: an active site whose sums overflow comes after an
/// active site that collides.
pub open spec fn collision_check_fits(s: Seq<Site>, position: Point2, default_bitmap: Bitmap) -> bool {
    forall|k: int|
        0 <= k < s.len() && s[k].is_active && !corner_sums_fit(
            position,
            s[k].position,
            site_shape(s[k], default_bitmap),
        ) ==> exists|j: int| 0 <= j < k && #[trigger] site_overlaps(s, j, position, default_bitmap)
}

/// A site just added at `position` collides with `position` itself, unless
/// the default bitmap has no cells.
pub proof fn lemma_added_site_collides(s: Seq<Site>, position: Point2, default_bitmap: Bitmap)
    requires
        bitmap_shape(default_bitmap).0 > 0,
        bitmap_shape(default_bitmap).1 > 0,
    ensures
        collides(
            s.push(Site { position, custom_bitmap: None, is_active: true }),
            position,
            default_bitmap,
        ),
{
    let t = s.push(Site { position, custom_bitmap: None, is_active: true });
    assert(site_overlaps(t, s.len() as int, position, default_bitmap));
}

/// A position does not collide when, for every active site, the two
/// rectangles of that site's shape lie apart on the first or on the second axis.
pub proof fn lemma_apart_means_no_collision(s: Seq<Site>, position: Point2, default_bitmap: Bitmap)
    requires
        forall|i: int|
            0 <= i < s.len() && #[trigger] s[i].is_active ==> {
                let q = s[i].position;
                let sh = site_shape(s[i], default_bitmap);
                ||| position.0 + sh.0 <= q.0
                ||| q.0 + sh.0 <= position.0
                ||| position.1 + sh.1 <= q.1
                ||| q.1 + sh.1 <= position.1
            },
    ensures
        !collides(s, position, default_bitmap),
{
    assert forall|i: int| 0 <= i < s.len() implies !#[trigger] site_overlaps(s, i, position, default_bitmap) by {
        if s[i].is_active {
        }
    }
}

/// A position collides when its rectangle and an active site's rectangle,
/// both of that site's shape, share a cell `(a, b)`.
pub proof fn lemma_shared_cell_means_collision(
    s: Seq<Site>,
    position: Point2,
    default_bitmap: Bitmap,
    i: int,
    a: int,
    b: int,
)
    requires
        0 <= i < s.len(),
        s[i].is_active,
        s[i].position.0 <= a < s[i].position.0 + site_shape(s[i], default_bitmap).0,
        s[i].position.1 <= b < s[i].position.1 + site_shape(s[i], default_bitmap).1,
        position.0 <= a < position.0 + site_shape(s[i], default_bitmap).0,
        position.1 <= b < position.1 + site_shape(s[i], default_bitmap).1,
    ensures
        collides(s, position, default_bitmap),
{
    assert(site_overlaps(s, i, position, default_bitmap));
}

/// A site uses its own bitmap when it has one, and the default otherwise.
pub proof fn lemma_bitmap_or(site: Site, default_bitmap: Bitmap)
    ensures
        site.custom_bitmap matches Some(c) ==> site.bitmap_or(default_bitmap) == c,
        site.custom_bitmap is None ==> site.bitmap_or(default_bitmap) == default_bitmap,
{
}

/// There are never more active sites than sites.
pub proof fn lemma_active_within_total(s: Seq<Site>)
    ensures
        active_sites(s).len() <= s.len(),
    decreases s.len(),
{
    if s.len() > 0 {
        lemma_active_within_total(s.drop_last());
    }
}

/// A site added at a position where no site stands is the one found there.
pub proof fn lemma_find_added_site(s: Seq<Site>, site: Site)
    requires
        !has_site_at(s, site.position),
    ensures
        is_first_at(s.push(site), site.position, s.len() as int),
{
    assert forall|j: int| 0 <= j < s.len() implies #[trigger] s.push(site)[j].position != site.position by {
        assert(s.push(site)[j] == s[j]);
    }
}

/// Removing the site found at the position of a site just added, where no
/// site stood before, gives back the sites as they were.
pub proof fn lemma_remove_added_site(s: Seq<Site>, site: Site, k: int)
    requires
        !has_site_at(s, site.position),
        is_first_at(s.push(site), site.position, k),
    ensures
        k == s.len(),
        s.push(site).remove(k) == s,
{
    if k < s.len() {
        assert(s.push(site)[k] == s[k]);
    }
    assert(s.push(site).remove(k) =~= s);
}

/// Collection of sites with helper methods
pub struct SiteManager {
    sites: Vec<Site>,
}

impl View for SiteManager {
    type V = Seq<Site>;

    closed spec fn view(&self) -> Seq<Site> {
        self.sites@
    }
}

impl SiteManager {
    /// Create a new site manager
    pub fn new() -> (r: Self)
        ensures
            r@ == Seq::<Site>::empty(),
    {
        SiteManager { sites: Vec::new() }
    }

    /// Add a new site with default bitmap
    pub fn add_site(&mut self, position: Point2)
        ensures
            final(self)@ == old(self)@.push(Site { position, custom_bitmap: None, is_active: true }),
    {
        self.sites.push(Site::new(position));
    }

    /// Add a new site with custom bitmap
    pub fn add_custom_site(&mut self, position: Point2, bitmap: Bitmap)
        ensures
            final(self)@ == old(self)@.push(
                Site { position, custom_bitmap: Some(bitmap), is_active: true },
            ),
    {
        self.sites.push(Site::with_custom_bitmap(position, bitmap));
    }

    /// Get all active sites
    pub fn get_active_sites(&self) -> (r: Vec<&Site>)
        ensures
            r@.len() == active_sites(self@).len(),
            forall|i: int| 0 <= i < r@.len() ==> *#[trigger] r@[i] == active_sites(self@)[i],
    {
        let mut out: Vec<&Site> = Vec::new();
        let mut i: usize = 0;
        while i < self.sites.len()
            invariant
                i <= self.sites@.len(),
                out@.len() == active_sites(self.sites@.take(i as int)).len(),
                forall|k: int| 0 <= k < out@.len() ==> *#[trigger] out@[k] == active_sites(self.sites@.take(i as int))[k],
            decreases self.sites@.len() - i,
        {
            proof {
                lemma_active_sites_step(self.sites@, i as int);
            }
            let site = &self.sites[i];
            if site.is_active {
                out.push(site);
            }
            i += 1;
        }
        assert(self.sites@.take(self.sites@.len() as int) =~= self.sites@);
        out
    }

    /// Get all active sites as mutable references
    pub fn get_active_sites_mut(&mut self) -> (r: Vec<&mut Site>)
        ensures
            r@.len() == active_sites(old(self)@).len(),
            forall|k: int| 0 <= k < r@.len() ==> *#[trigger] r@[k] == active_sites(old(self)@)[k],
            final(self)@.len() == old(self)@.len(),
            forall|i: int|
                0 <= i < old(self)@.len() && !old(self)@[i].is_active ==> #[trigger] final(self)@[i]
                    == old(self)@[i],
            forall|k: int|
                #![trigger r@[k]]
                0 <= k < r@.len() ==> final(self)@[active_positions(old(self)@)[k]] == *final(r@[k]),
    {
        let ghost s = self.sites@;
        let mut out: Vec<&mut Site> = Vec::new();
        let mut rest: &mut [Site] = self.sites.as_mut_slice();
        assert(after_borrow(self.sites)@ == final(rest)@);
        let ghost mut done: int = 0;
        proof {
            assert(s.take(0) =~= Seq::<Site>::empty());
        }
        while rest.len() > 0
            invariant
                0 <= done <= s.len(),
                rest@ == s.subrange(done, s.len() as int),
                after_borrow(self.sites)@.len() == done + final(rest)@.len(),
                forall|i: int|
                    done <= i < after_borrow(self.sites)@.len() ==> #[trigger] after_borrow(self.sites)@[i]
                        == final(rest)@[i - done],
                forall|j: int| 0 <= j < done && !s[j].is_active ==> #[trigger] after_borrow(self.sites)@[j] == s[j],
                out@.len() == active_sites(s.take(done)).len(),
                active_positions(s.take(done)).len() == out@.len(),
                forall|k: int| 0 <= k < out@.len() ==> 0 <= #[trigger] active_positions(s.take(done))[k] < done,
                forall|k: int| 0 <= k < out@.len() ==> *#[trigger] out@[k] == active_sites(s.take(done))[k],
                forall|k: int|
                    #![trigger out@[k]]
                    0 <= k < out@.len() ==> after_borrow(self.sites)@[active_positions(s.take(done))[k]] == *final(out@[k]),
            decreases rest@.len(),
        {
            let (head, tail) = <[Site]>::split_at_mut({ rest }, 1);
            let site = <[Site]>::first_mut({ head }).unwrap();
            proof {
                lemma_active_sites_step(s, done);
                lemma_active_positions_step(s, done);
            }
            proof {
                assert forall|i: int| done + 1 <= i < after_borrow(self.sites)@.len() implies #[trigger] after_borrow(self.sites)@[i]
                    == final(tail)@[i - (done + 1)] by {
                    assert(after_borrow(self.sites)@[i] == after_borrow(self.sites)@[i]);
                }
                assert(after_borrow(self.sites)@[done] == *final(site));
            }
            if site.is_active {
                out.push(site);
            } else {
                assert(*final(site) == s[done]);
            }
            rest = tail;
            proof {
                done = done + 1;
            }
        }
        assert(final(rest)@ == rest@);
        assert(s.take(s.len() as int) =~= s);
        out
    }

    /// Get all sites (active and inactive)
    pub fn get_all_sites(&self) -> (r: &[Site])
        ensures
            r@ == self@,
    {
        self.sites.as_slice()
    }

    /// Get all sites as mutable references
    pub fn get_all_sites_mut(&mut self) -> (r: &mut [Site])
        ensures
            r@ == old(self)@,
            final(self)@ == final(r)@,
    {
        self.sites.as_mut_slice()
    }

    /// Index of the first site at `position`, if any.
    fn position_of(&self, position: Point2) -> (r: Option<usize>)
        ensures
            r is None <==> !has_site_at(self@, position),
            r matches Some(k) ==> is_first_at(self@, position, k as int),
    {
        let mut i: usize = 0;
        while i < self.sites.len()
            invariant
                i <= self.sites@.len(),
                forall|j: int| 0 <= j < i ==> #[trigger] self.sites@[j].position != position,
            decreases self.sites@.len() - i,
        {
            if same_position(self.sites[i].position, position) {
                return Some(i);
            }
            i += 1;
        }
        None
    }

    /// Find a site at a specific position
    pub fn find_site_at(&self, position: Point2) -> (r: Option<&Site>)
        ensures
            r is None <==> !has_site_at(self@, position),
            r matches Some(s) ==> exists|k: int| is_first_at(self@, position, k) && *s == self@[k],
    {
        match self.position_of(position) {
            Some(k) => Some(&self.sites[k]),
            None => None,
        }
    }

    /// Find a site at a specific position (mutable)
    pub fn find_site_at_mut(&mut self, position: Point2) -> (r: Option<&mut Site>)
        ensures
            r is None <==> !has_site_at(old(self)@, position),
            r is None ==> final(self)@ == old(self)@,
            r is Some ==> exists|k: int|
                is_first_at(old(self)@, position, k) && *r.unwrap() == old(self)@[k]
                    && final(self)@ == old(self)@.update(k, *final(r.unwrap())),
    {
        match self.position_of(position) {
            Some(k) => Some(&mut self.sites[k]),
            None => None,
        }
    }

    /// Remove a site at a specific position
    pub fn remove_site_at(&mut self, position: Point2) -> (r: Option<Site>)
        ensures
            r is None <==> !has_site_at(old(self)@, position),
            r is None ==> final(self)@ == old(self)@,
            r matches Some(s) ==> exists|k: int|
                is_first_at(old(self)@, position, k) && s == old(self)@[k] && final(self)@
                    == old(self)@.remove(k),
    {
        if let Some(index) = self.position_of(position) {
            Some(self.sites.remove(index))
        } else {
            None
        }
    }

    /// Check if a position collides with any existing site
    pub fn collides_with_sites(
        &self,
        position: Point2,
        _site_shape: (usize, usize),
        default_bitmap: &Bitmap,
    ) -> (r: bool)
        requires
            collision_check_fits(self@, position, *default_bitmap),
        ensures
            r == collides(self@, position, *default_bitmap),
    {
        let ghost s = self.sites@;
        let mut i: usize = 0;
        while i < self.sites.len()
            invariant
                s == self.sites@,
                i <= s.len(),
                collision_check_fits(s, position, *default_bitmap),
                forall|j: int| 0 <= j < i ==> !#[trigger] site_overlaps(s, j, position, *default_bitmap),
            decreases s.len() - i,
        {
            let site = &self.sites[i];
            if site.is_active {
                let shape = site.get_dimensions(default_bitmap);
                assert(corner_sums_fit(position, s[i as int].position, shape));
                let pos_end = (position.0 + shape.0, position.1 + shape.1);
                let site_end = (site.position.0 + shape.0, site.position.1 + shape.1);
                if position.0 < site_end.0 && pos_end.0 > site.position.0 && position.1 < site_end.1
                    && pos_end.1 > site.position.1 {
                    assert(site_overlaps(s, i as int, position, *default_bitmap));
                    return true;
                }
            }
            i += 1;
        }
        false
    }

    /// Get the number of active sites
    pub fn active_count(&self) -> (r: usize)
        ensures
            r == active_sites(self@).len(),
    {
        let mut count: usize = 0;
        let mut i: usize = 0;
        while i < self.sites.len()
            invariant
                i <= self.sites@.len(),
                count == active_sites(self.sites@.take(i as int)).len(),
                count <= i,
            decreases self.sites@.len() - i,
        {
            proof {
                lemma_active_sites_step(self.sites@, i as int);
            }
            if self.sites[i].is_active {
                count += 1;
            }
            i += 1;
        }
        assert(self.sites@.take(self.sites@.len() as int) =~= self.sites@);
        count
    }

    /// Get the total number of sites
    pub fn total_count(&self) -> (r: usize)
        ensures
            r == self@.len(),
    {
        self.sites.len()
    }

    /// Clear all sites
    pub fn clear(&mut self)
        ensures
            final(self)@ == Seq::<Site>::empty(),
    {
        self.sites.clear();
    }
}

} // verus!
