//! Choosing among the resolutions a camera offers: which of its capability
//! entries are listed, in which order, and which one is selected as the
//! device and the user's choice change.
use vstd::prelude::*;

verus! {

/// What the resolution list needs to know of one capability entry of a
/// camera: whether it is a DRM format, and its width and height when they
/// are given as integers.
#[derive(Debug, Clone, Copy, PartialEq, Eq, Structural)]
pub struct CapsSummary {
    pub has_drm_format: bool,
    pub width: Option<i32>,
    pub height: Option<i32>,
}

/// Whether an entry is listed: not a DRM format, and with a width and a
/// height.
pub open spec fn listed(c: CapsSummary) -> bool {
    !c.has_drm_format && c.width is Some && c.height is Some
}

/// The pixel count of a listed entry.
pub open spec fn area_of(c: CapsSummary) -> int {
    c.width.unwrap() * c.height.unwrap()
}

/// Whether entry `i` of `s` comes before entry `j` in the list: larger
/// area first, and among equal areas, the one given first.
pub open spec fn listed_before(s: Seq<CapsSummary>, i: int, j: int) -> bool {
    area_of(s[i]) > area_of(s[j]) || (area_of(s[i]) == area_of(s[j]) && i < j)
}

/// Whether `r` lists the entries of `s` that are listed, each once, in
/// list order.
pub open spec fn is_listing(s: Seq<CapsSummary>, r: Seq<usize>) -> bool {
    &&& forall|i: usize| i < s.len() && listed(s[i as int]) <==> #[trigger] r.contains(i)
    &&& forall|k: int| 0 <= k < r.len() ==> #[trigger] r[k] < s.len()
    &&& forall|a: int, b: int| 0 <= a < b < r.len() ==> listed_before(s, #[trigger] r[a] as int, #[trigger] r[b] as int)
}

/// Whether the pixel count of every listed entry fits an `i32`.
pub open spec fn areas_fit(s: Seq<CapsSummary>) -> bool {
    forall|i: int| 0 <= i < s.len() && listed(#[trigger] s[i]) ==> i32::MIN <= area_of(s[i]) <= i32::MAX
}

/// The indices of the listed entries of `entries`, largest resolution
/// first; entries of equal pixel count keep their order.
pub fn listing_order(entries: &Vec<CapsSummary>) -> (r: Vec<usize>)
    requires
        areas_fit(entries@),
    ensures
        is_listing(entries@, r@),
{
    let ghost s = entries@;
    let mut r: Vec<usize> = Vec::new();
    let mut areas: Vec<i32> = Vec::new();
    let mut j: usize = 0;
    while j < entries.len()
        invariant
            s == entries@,
            areas_fit(s),
            j <= entries.len(),
            areas.len() == r.len(),
            forall|k: int| 0 <= k < r.len() ==> #[trigger] r@[k] < j,
            forall|k: int| 0 <= k < r.len() ==> listed(s[#[trigger] r@[k] as int]),
            forall|k: int| 0 <= k < r.len() ==> #[trigger] areas@[k] == area_of(s[r@[k] as int]),
            forall|i: usize| i < j && listed(s[i as int]) ==> #[trigger] r@.contains(i),
            forall|a: int, b: int| 0 <= a < b < r.len() ==> listed_before(s, #[trigger] r@[a] as int, #[trigger] r@[b] as int),
        decreases entries.len() - j,
    {
        let e = entries[j];
        if !e.has_drm_format {
            if let (Some(w), Some(h)) = (e.width, e.height) {
                assert(listed(s[j as int]));
                let area = w * h;
                let mut p: usize = 0;
                while p < r.len() && areas[p] >= area
                    invariant
                        p <= r.len(),
                        areas.len() == r.len(),
                        forall|k: int| 0 <= k < p ==> #[trigger] areas@[k] >= area,
                    decreases r.len() - p,
                {
                    p = p + 1;
                }
                let ghost old_r = r@;
                let ghost old_areas = areas@;
                proof {
                    if p < r.len() {
                        assert forall|k: int| p <= k < r.len() implies #[trigger] old_areas[k] < area by {
                            if k > p {
                                assert(listed_before(s, old_r[p as int] as int, old_r[k] as int));
                            }
                        }
                    }
                }
                r.insert(p, j);
                areas.insert(p, area);
                proof {
                    assert(r@ == old_r.insert(p as int, j));
                    assert forall|k: int| 0 <= k < r.len() implies #[trigger] r@[k] < j + 1 by {
                        if k < p {
                            assert(r@[k] == old_r[k]);
                        } else if k > p {
                            assert(r@[k] == old_r[k - 1]);
                        }
                    }
                    assert forall|k: int| 0 <= k < r.len() implies listed(s[#[trigger] r@[k] as int]) by {
                        if k < p {
                            assert(r@[k] == old_r[k]);
                        } else if k > p {
                            assert(r@[k] == old_r[k - 1]);
                        }
                    }
                    assert forall|k: int| 0 <= k < r.len() implies #[trigger] areas@[k] == area_of(s[r@[k] as int]) by {
                        if k < p {
                            assert(r@[k] == old_r[k]);
                            assert(areas@[k] == old_areas[k]);
                        } else if k > p {
                            assert(r@[k] == old_r[k - 1]);
                            assert(areas@[k] == old_areas[k - 1]);
                        }
                    }
                    assert forall|i: usize| i < j + 1 && listed(s[i as int]) implies #[trigger] r@.contains(i) by {
                        if i < j {
                            assert(old_r.contains(i));
                            let k = choose|k: int| 0 <= k < old_r.len() && old_r[k] == i;
                            if k < p {
                                assert(r@[k] == old_r[k]);
                            } else {
                                assert(r@[k + 1] == old_r[k]);
                            }
                        } else {
                            assert(r@[p as int] == j);
                        }
                    }
                    assert forall|a: int, b: int| 0 <= a < b < r.len() implies listed_before(
                        s,
                        #[trigger] r@[a] as int,
                        #[trigger] r@[b] as int,
                    ) by {
                        if b < p {
                            assert(r@[a] == old_r[a] && r@[b] == old_r[b]);
                        } else if b == p {
                            assert(r@[a] == old_r[a]);
                            assert(old_areas[a] >= area);
                        } else if a < p {
                            assert(r@[a] == old_r[a] && r@[b] == old_r[b - 1]);
                        } else if a == p {
                            assert(r@[b] == old_r[b - 1]);
                            assert(old_areas[b - 1] < area);
                        } else {
                            assert(r@[a] == old_r[a - 1] && r@[b] == old_r[b - 1]);
                        }
                    }
                }
            }
        }
        j = j + 1;
    }
    proof {
        assert forall|i: usize| i < s.len() && listed(s[i as int]) <==> #[trigger] r@.contains(i) by {
            if r@.contains(i) {
                let k = choose|k: int| 0 <= k < r.len() && r@[k] == i;
                assert(listed(s[r@[k] as int]));
            }
        }
    }
    r
}

/// Which entry of the resolution list is selected. Nothing is selected
/// until a device with listed resolutions appears or the user picks one.
#[derive(Debug, Clone, Copy, PartialEq, Eq, Structural)]
pub struct ResolutionSelection {
    pub selected: Option<usize>,
}

impl ResolutionSelection {
    /// A selection of nothing.
    pub fn new() -> (r: Self)
        ensures
            r.selected is None,
    {
        ResolutionSelection { selected: None }
    }

    /// The camera changed to one whose list has `n` entries (none when no
    /// camera or no listed resolution). Gives the entry to switch to: the
    /// first, when nothing was selected yet and the list is not empty.
    pub fn device_changed(&mut self, n: usize) -> (out: Option<usize>)
        ensures
            out == (if n > 0 && old(self).selected is None { Some(0usize) } else { None::<usize> }),
            final(self).selected == (if out is Some { Some(0usize) } else { old(self).selected }),
    {
        if n > 0 && self.selected.is_none() {
            self.selected = Some(0);
            Some(0)
        } else {
            None
        }
    }

    /// The user picked position `idx` of a list of `n` entries (`u32::MAX`
    /// is no position). Gives `None` when nothing is to be announced, and
    /// otherwise the entry now selected, `None` inside when the list has no
    /// such entry.
    pub fn resolution_selected(&mut self, idx: u32, n: usize) -> (out: Option<Option<usize>>)
        ensures
            idx == u32::MAX || old(self).selected == Some(idx as usize) ==> out is None && *final(self)
                == *old(self),
            !(idx == u32::MAX || old(self).selected == Some(idx as usize)) ==> out == Some(
                if (idx as usize) < n { Some(idx as usize) } else { None::<usize> },
            ) && final(self).selected == Some(idx as usize),
    {
        if idx == u32::MAX {
            return None;
        }
        let idx = idx as usize;
        if self.selected != Some(idx) {
            self.selected = Some(idx);
            if idx < n {
                Some(Some(idx))
            } else {
                Some(None)
            }
        } else {
            None
        }
    }
}

} // verus!
