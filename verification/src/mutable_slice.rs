//! A split view over the zone vector: one zone is worked on while
//! every other zone stays readable by handle. The view refuses to
//! answer for the focused index, so the caller's working copy can
//! never alias what it reads.

use crate::zone::chain_indices_from;
use crate::zone::dedup_consecutive;
use crate::zone::format_zip_code;
use crate::zone::join_comma;
use crate::zone::lemma_chain_bounds;
use crate::zone::lemma_dedup_last;
use crate::zone::names_of;
use crate::zone::spec_dedup;
use crate::zone::spec_label_parts;
use crate::zone::spec_zip_suffix;
use crate::zone::zone_like;
use crate::zone::Zone;
use crate::zone::ZoneIndex;
use vstd::prelude::*;

verus! {

/// A read view over a zone vector with one index withheld.
pub struct MutableSlice<'a> {
    zones: &'a Vec<Zone>,
    focus: usize,
}

impl<'a> MutableSlice<'a> {
    /// The zones under the view.
    pub closed spec fn spec_zones(&self) -> Seq<Zone> {
        self.zones@
    }

    /// The index the view withholds.
    pub closed spec fn spec_focus(&self) -> int {
        self.focus as int
    }

    /// Splits the vector at `focus`: a view over every other zone,
    /// and a working copy of the focused zone.
    pub fn init(zones: &'a Vec<Zone>, focus: usize) -> (r: (MutableSlice<'a>, Zone))
        requires
            focus < zones@.len(),
        ensures
            r.0.spec_zones() == zones@,
            r.0.spec_focus() == focus as int,
            zone_like(r.1, zones@[focus as int]),
    {
        let z = zones[focus].clone();
        (MutableSlice { zones, focus }, z)
    }

    /// How many zones the underlying vector holds.
    pub fn len(&self) -> (n: usize)
        ensures
            n as int == self.spec_zones().len(),
    {
        self.zones.len()
    }

    /// The zone under a handle other than the focused one.
    pub fn get(&self, idx: &ZoneIndex) -> (z: &Zone)
        requires
            idx.index < self.spec_zones().len(),
            idx.index != self.spec_focus(),
        ensures
            *z == self.spec_zones()[idx.index as int],
    {
        &self.zones[idx.index]
    }

    /// The focused index as a plain number.
    pub fn focus_index(&self) -> (r: usize)
        ensures
            r as int == self.spec_focus(),
    {
        self.focus
    }
}

impl Zone {
    /// The handles of this zone's ancestors, nearest first: its
    /// parent, the parent's parent, and so on. The walk stops at a
    /// missing parent; a handle that is out of bounds, or leads back
    /// to the focused zone, or a chain longer than the vector — none
    /// of which a well-formed forest holds — also ends it.
    pub fn iter_parents(&self, all_zones: &MutableSlice) -> (r: Vec<ZoneIndex>)
        ensures
            r@.map_values(|zi: ZoneIndex| zi.index as int) == chain_indices_from(
                all_zones.spec_zones(),
                self.parent,
                all_zones.spec_focus(),
                all_zones.spec_zones().len() as nat,
            ),
            forall|k: int|
                0 <= k < r@.len() ==> (#[trigger] r@[k]).index < all_zones.spec_zones().len()
                    && r@[k].index != all_zones.spec_focus(),
    {
        let ghost zs = all_zones.spec_zones();
        let ghost f = all_zones.spec_focus();
        let ghost full = chain_indices_from(zs, self.parent, f, zs.len() as nat);
        let n = all_zones.len();
        let mut r: Vec<ZoneIndex> = Vec::new();
        let mut cur: Option<ZoneIndex> = self.parent;
        let mut steps: usize = 0;
        proof {
            assert(r@.map_values(|zi: ZoneIndex| zi.index as int) =~= Seq::<int>::empty());
        }
        loop
            invariant
                n as int == zs.len(),
                zs == all_zones.spec_zones(),
                f == all_zones.spec_focus(),
                steps <= n,
                r@.len() == steps,
                full == r@.map_values(|zi: ZoneIndex| zi.index as int) + chain_indices_from(
                    zs,
                    cur,
                    f,
                    (n - steps) as nat,
                ),
                forall|k: int|
                    0 <= k < r@.len() ==> (#[trigger] r@[k]).index < zs.len() && r@[k].index != f,
            ensures
                full == r@.map_values(|zi: ZoneIndex| zi.index as int),
                forall|k: int|
                    0 <= k < r@.len() ==> (#[trigger] r@[k]).index < zs.len() && r@[k].index != f,
            decreases n - steps,
        {
            let p = match cur {
                Some(p) => p,
                None => {
                    proof {
                        assert(chain_indices_from(zs, cur, f, (n - steps) as nat)
                            =~= Seq::<int>::empty());
                        assert(full =~= r@.map_values(|zi: ZoneIndex| zi.index as int));
                    }
                    break ;
                },
            };
            if steps >= n || p.index >= n || p.index == all_zones.focus_index() {
                proof {
                    assert(chain_indices_from(zs, cur, f, (n - steps) as nat)
                        =~= Seq::<int>::empty());
                    assert(full =~= r@.map_values(|zi: ZoneIndex| zi.index as int));
                }
                break ;
            }
            let ghost before = r@;
            let z = all_zones.get(&p);
            r.push(p);
            cur = z.parent;
            proof {
                assert(r@.map_values(|zi: ZoneIndex| zi.index as int) =~= before.map_values(
                    |zi: ZoneIndex| zi.index as int,
                ) + seq![p.index as int]);
            }
            steps = steps + 1;
        }
        proof {
            assert(full =~= r@.map_values(|zi: ZoneIndex| zi.index as int));
        }
        r
    }

    /// Writes this zone's label: its name and the names up its
    /// parent chain, runs of equal names collapsed, the zip-code
    /// suffix on the first part, joined with commas. Nothing else
    /// changes.
    pub fn compute_label(&mut self, all_zones: &MutableSlice)
        ensures
            *final(self) == (Zone { label: final(self).label, ..*old(self) }),
            final(self).label@ == spec_label_parts(
                old(self).name@,
                old(self).zip_codes.deep_view(),
                old(self).parent,
                all_zones.spec_zones(),
                all_zones.spec_focus(),
            ),
    {
        let ghost zs = all_zones.spec_zones();
        let ghost f = all_zones.spec_focus();
        let ghost chain = chain_indices_from(zs, self.parent, f, zs.len() as nat);
        let ids = self.iter_parents(all_zones);
        let mut names: Vec<String> = Vec::new();
        names.push(self.name.clone());
        let mut k: usize = 0;
        while k < ids.len()
            invariant
                zs == all_zones.spec_zones(),
                f == all_zones.spec_focus(),
                chain == ids@.map_values(|zi: ZoneIndex| zi.index as int),
                forall|j: int|
                    0 <= j < ids@.len() ==> (#[trigger] ids@[j]).index < zs.len() && ids@[j].index
                        != f,
                k <= ids@.len(),
                names.deep_view().len() == k + 1,
                names.deep_view()[0] == old(self).name@,
                forall|j: int|
                    0 <= j < k ==> names.deep_view()[j + 1] == #[trigger] names_of(zs, chain)[j],
                self == old(self),
            decreases ids@.len() - k,
        {
            let z = all_zones.get(&ids[k]);
            names.push(z.name.clone());
            k = k + 1;
        }
        proof {
            assert(names.deep_view() =~= seq![old(self).name@] + names_of(zs, chain));
        }
        let mut hierarchy = dedup_consecutive(&names);
        proof {
            lemma_dedup_last(names.deep_view());
        }
        let suffix = format_zip_code(&self.zip_codes);
        let first = hierarchy[0].clone().concat(suffix.as_str());
        hierarchy[0] = first;
        proof {
            assert(hierarchy.deep_view() =~= spec_dedup(
                seq![old(self).name@] + names_of(zs, chain),
            ).update(
                0,
                spec_dedup(seq![old(self).name@] + names_of(zs, chain))[0]
                    + spec_zip_suffix(old(self).zip_codes.deep_view()),
            ));
        }
        let label = join_comma(&hierarchy);
        self.label = label;
    }
}

} // verus!
