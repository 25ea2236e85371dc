use crate::location::{Location, Portal, TerrainQuery};
use vstd::prelude::*;

verus! {

/// Version of the game that a world is made by.
pub const GAME_VERSION: &'static str = "0.1.0";

/// Toplevel game state, as far as locations are concerned: the portals
/// between zones.
pub struct World {
    /// Game version, so that saved worlds can be told apart.
    version: String,
    /// Portals, each with the location it leaves from; no location twice.
    ///
    /// A list rather than a hash map keyed by `Location`: the key's `Hash`
    /// and `Eq` are derived, and Verus cannot read derived impls, so nothing
    /// could be proved of such a map's lookups. An integer key such as the
    /// Morton code would need a proof that codes are one per location; the
    /// list, searched in full, needs none.
    portals: Vec<(Location, Portal)>,
}

/// Whether no two entries leave from the same location.
pub open spec fn sources_unique(s: Seq<(Location, Portal)>) -> bool {
    forall|i: int, j: int|
        0 <= i < s.len() && 0 <= j < s.len() && #[trigger] s[i].0 == #[trigger] s[j].0 ==> i == j
}

/// The portal that an entry of `s` gives for `loc`, if any.
pub open spec fn entry_for(s: Seq<(Location, Portal)>, loc: Location) -> Option<Portal> {
    if exists|i: int| 0 <= i < s.len() && #[trigger] s[i].0 == loc {
        let i = choose|i: int| 0 <= i < s.len() && #[trigger] s[i].0 == loc;
        Some(s[i].1)
    } else {
        None
    }
}

/// Sets the entry for `loc` to `portal`, in place of any entry there was.
fn put_entry(v: &mut Vec<(Location, Portal)>, loc: Location, portal: Portal)
    requires
        sources_unique(old(v)@),
    ensures
        sources_unique(final(v)@),
        entry_for(final(v)@, loc) == Some(portal),
        forall|other: Location| other != loc ==> entry_for(final(v)@, other) == entry_for(old(v)@, other),
{
    let ghost before = v@;
    let mut i: usize = 0;
    while i < v.len()
        invariant
            v@ == before,
            before == old(v)@,
            sources_unique(before),
            0 <= i <= v@.len(),
            forall|j: int| 0 <= j < i ==> v@[j].0 != loc,
        decreases v@.len() - i,
    {
        if v[i].0 == loc {
            v.set(i, (loc, portal));
            let ghost after = v@;
            assert forall|a: int, b: int|
                0 <= a < after.len() && 0 <= b < after.len() && #[trigger] after[a].0 == #[trigger] after[b].0 implies a == b by {
                assert(before[a].0 == after[a].0);
                assert(before[b].0 == after[b].0);
            }
            assert(after[i as int].0 == loc);
            assert forall|other: Location| other != loc implies entry_for(after, other) == entry_for(before, other) by {
                if exists|k: int| 0 <= k < after.len() && #[trigger] after[k].0 == other {
                    let k = choose|k: int| 0 <= k < after.len() && #[trigger] after[k].0 == other;
                    assert(before[k].0 == other);
                    let k2 = choose|k: int| 0 <= k < before.len() && #[trigger] before[k].0 == other;
                    assert(after[k2].0 == other);
                    assert(after[k] == before[k]);
                    assert(k == k2);
                }
                if exists|k: int| 0 <= k < before.len() && #[trigger] before[k].0 == other {
                    let k = choose|k: int| 0 <= k < before.len() && #[trigger] before[k].0 == other;
                    assert(after[k].0 == other);
                }
            }
            assert(v@ == after);
            return;
        }
        i = i + 1;
    }
    v.push((loc, portal));
    let ghost after = v@;
    let ghost n = before.len() as int;
    assert(after[n].0 == loc);
    assert forall|a: int, b: int|
        0 <= a < after.len() && 0 <= b < after.len() && #[trigger] after[a].0 == #[trigger] after[b].0 implies a == b by {
        if a < n {
            assert(after[a] == before[a]);
        }
        if b < n {
            assert(after[b] == before[b]);
        }
    }
    assert forall|other: Location| other != loc implies entry_for(after, other) == entry_for(before, other) by {
        if exists|k: int| 0 <= k < after.len() && #[trigger] after[k].0 == other {
            let k = choose|k: int| 0 <= k < after.len() && #[trigger] after[k].0 == other;
            assert(before[k].0 == other);
            let k2 = choose|k: int| 0 <= k < before.len() && #[trigger] before[k].0 == other;
            assert(after[k2] == before[k2]);
        }
        if exists|k: int| 0 <= k < before.len() && #[trigger] before[k].0 == other {
            let k = choose|k: int| 0 <= k < before.len() && #[trigger] before[k].0 == other;
            assert(after[k] == before[k]);
        }
    }
}

impl World {
    #[verifier::type_invariant]
    spec fn inv(&self) -> bool {
        sources_unique(self.portals@)
    }

    /// The game version that made the world.
    pub closed spec fn version_spec(&self) -> Seq<char> {
        self.version@
    }

    /// A world with no portals.
    pub fn new() -> (r: World)
        ensures
            r.version_spec() == GAME_VERSION@,
            forall|loc: Location| r.portal_at(loc) is None,
    {
        World { version: GAME_VERSION.to_owned(), portals: Vec::new() }
    }

    /// Makes `portal` leave from `loc`, in place of any portal there before.
    pub fn set_portal(&mut self, loc: Location, portal: Portal)
        ensures
            final(self).version_spec() == old(self).version_spec(),
            final(self).portal_at(loc) == Some(portal),
            forall|other: Location| other != loc ==> final(self).portal_at(other) == old(self).portal_at(other),
    {
        proof {
            use_type_invariant(&*self);
        }
        let mut v: Vec<(Location, Portal)> = Vec::new();
        std::mem::swap(&mut self.portals, &mut v);
        put_entry(&mut v, loc, portal);
        std::mem::swap(&mut self.portals, &mut v);
    }
}

impl TerrainQuery for World {
    closed spec fn portal_at(&self, loc: Location) -> Option<Portal> {
        entry_for(self.portals@, loc)
    }

    fn portal(&self, loc: Location) -> (r: Option<Portal>) {
        proof {
            use_type_invariant(self);
        }
        let mut i: usize = 0;
        while i < self.portals.len()
            invariant
                0 <= i <= self.portals@.len(),
                sources_unique(self.portals@),
                forall|j: int| 0 <= j < i ==> self.portals@[j].0 != loc,
            decreases self.portals@.len() - i,
        {
            if self.portals[i].0 == loc {
                assert(self.portals@[i as int].0 == loc);
                return Some(self.portals[i].1);
            }
            i = i + 1;
        }
        None
    }
}

} // verus!
