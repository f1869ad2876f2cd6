//! Entry bookkeeping for restricted-airspace fences.
//!
//! Each fence remembers which aircraft it held at its last pass. A pass
//! receives, for every active fence and every position fix, whether the fix
//! lies inside the fence (polygon and vertical band); it emits an entry
//! event for each aircraft found inside that the fence did not hold, and
//! the fence then holds exactly the aircraft found inside.

use vstd::prelude::*;
use crate::models::GeofenceBreach;

verus! {

/// An active fence taking part in a pass.
#[derive(Debug, Clone)]
pub struct FenceRef {
    pub id: String,
    pub name: String,
}

/// A position fix taking part in a pass.
#[derive(Debug, Clone)]
pub struct FixRef {
    pub icao24: String,
    pub callsign: String,
    pub now_ms: u64,
}

pub struct FixModel {
    pub icao24: Seq<char>,
    pub callsign: Seq<char>,
    pub now_ms: u64,
}

pub struct BreachModel {
    pub fence_id: Seq<char>,
    pub fence_name: Seq<char>,
    pub icao24: Seq<char>,
    pub callsign: Seq<char>,
    pub entered_ms: u64,
}

impl View for FixRef {
    type V = FixModel;

    open spec fn view(&self) -> FixModel {
        FixModel { icao24: self.icao24@, callsign: self.callsign@, now_ms: self.now_ms }
    }
}

pub open spec fn fence_views(fs: Seq<FenceRef>) -> Seq<(Seq<char>, Seq<char>)> {
    fs.map_values(|f: FenceRef| (f.id@, f.name@))
}

pub open spec fn fix_views(xs: Seq<FixRef>) -> Seq<FixModel> {
    xs.map_values(|x: FixRef| x@)
}

pub open spec fn breach_view(b: GeofenceBreach) -> BreachModel {
    BreachModel {
        fence_id: b.fence_id@,
        fence_name: b.fence_name@,
        icao24: b.icao24@,
        callsign: b.callsign@,
        entered_ms: b.entered_ms,
    }
}

pub open spec fn breach_views(bs: Seq<GeofenceBreach>) -> Seq<BreachModel> {
    bs.map_values(|b: GeofenceBreach| breach_view(b))
}

pub open spec fn row_views(rows: Seq<Vec<bool>>) -> Seq<Seq<bool>> {
    rows.map_values(|r: Vec<bool>| r@)
}

/// Addresses of the first `k` fixes flagged inside, in fix order.
pub open spec fn inside_icaos(fixes: Seq<FixModel>, row: Seq<bool>, k: nat) -> Seq<Seq<char>>
    decreases k,
{
    if k == 0 {
        Seq::empty()
    } else {
        let prev = inside_icaos(fixes, row, (k - 1) as nat);
        if row[k - 1] {
            prev.push(fixes[k - 1].icao24)
        } else {
            prev
        }
    }
}

/// Entry events among the first `k` fixes: inside now, not held before.
pub open spec fn entries(
    id: Seq<char>,
    name: Seq<char>,
    fixes: Seq<FixModel>,
    row: Seq<bool>,
    held: Seq<Seq<char>>,
    k: nat,
) -> Seq<BreachModel>
    decreases k,
{
    if k == 0 {
        Seq::empty()
    } else {
        let prev = entries(id, name, fixes, row, held, (k - 1) as nat);
        let x = fixes[k - 1];
        if row[k - 1] && !held.contains(x.icao24) {
            prev.push(
                BreachModel {
                    fence_id: id,
                    fence_name: name,
                    icao24: x.icao24,
                    callsign: x.callsign,
                    entered_ms: x.now_ms,
                },
            )
        } else {
            prev
        }
    }
}

/// What a fence holds: nothing until its first pass.
pub open spec fn held_by(occ: Map<Seq<char>, Seq<Seq<char>>>, id: Seq<char>) -> Seq<Seq<char>> {
    if occ.contains_key(id) {
        occ[id]
    } else {
        Seq::empty()
    }
}

/// One pass over the fences in order: the occupancy afterwards and the
/// entry events in emission order.
pub open spec fn spec_pass(
    occ: Map<Seq<char>, Seq<Seq<char>>>,
    fences: Seq<(Seq<char>, Seq<char>)>,
    fixes: Seq<FixModel>,
    inside: Seq<Seq<bool>>,
) -> (Map<Seq<char>, Seq<Seq<char>>>, Seq<BreachModel>)
    decreases fences.len(),
{
    if fences.len() == 0 {
        (occ, Seq::empty())
    } else {
        let (o1, b1) = spec_pass(occ, fences.drop_last(), fixes, inside.drop_last());
        let (id, name) = fences.last();
        let row = inside[fences.len() - 1];
        (
            o1.insert(id, inside_icaos(fixes, row, fixes.len())),
            b1 + entries(id, name, fixes, row, held_by(o1, id), fixes.len()),
        )
    }
}

/// Which aircraft each fence held at its last pass.
#[derive(Debug)]
pub struct Occupancy {
    ids: Vec<String>,
    held: Vec<Vec<String>>,
}

pub open spec fn string_views(v: Seq<String>) -> Seq<Seq<char>> {
    v.map_values(|s: String| s@)
}

impl Occupancy {
    /// The occupancy as a map from fence id to the aircraft it holds.
    pub closed spec fn map(&self) -> Map<Seq<char>, Seq<Seq<char>>> {
        Map::new(
            |id: Seq<char>| exists|i: int| 0 <= i < self.ids@.len() && self.ids@[i]@ == id,
            |id: Seq<char>|
                string_views(
                    self.held@[choose|i: int| 0 <= i < self.ids@.len() && self.ids@[i]@ == id]@,
                ),
        )
    }

    /// Ids are unique and every id has its list.
    pub closed spec fn wf(&self) -> bool {
        &&& self.ids@.len() == self.held@.len()
        &&& forall|i: int, j: int|
            0 <= i < self.ids@.len() && 0 <= j < self.ids@.len() && i != j ==> self.ids@[i]@
                != self.ids@[j]@
    }

    pub fn new() -> (o: Self)
        ensures
            o.wf(),
            o.map() == Map::<Seq<char>, Seq<Seq<char>>>::empty(),
    {
        let o = Occupancy { ids: Vec::new(), held: Vec::new() };
        assert(o.map() =~= Map::<Seq<char>, Seq<Seq<char>>>::empty());
        o
    }

    proof fn lemma_map_at(&self, i: int)
        requires
            self.wf(),
            0 <= i < self.ids@.len(),
        ensures
            self.map().contains_key(self.ids@[i]@),
            self.map()[self.ids@[i]@] == string_views(self.held@[i]@),
    {
        let id = self.ids@[i]@;
        let j = choose|j: int| 0 <= j < self.ids@.len() && self.ids@[j]@ == id;
        assert(j == i);
    }

    fn find(&self, id: &String) -> (r: Option<usize>)
        requires
            self.wf(),
        ensures
            r matches Some(i) ==> i < self.ids@.len() && self.ids@[i as int]@ == id@,
            r is None ==> !self.map().contains_key(id@),
    {
        let mut i: usize = 0;
        while i < self.ids.len()
            invariant
                self.wf(),
                i <= self.ids@.len(),
                forall|j: int| 0 <= j < i ==> self.ids@[j]@ != id@,
            decreases self.ids.len() - i,
        {
            if self.ids[i] == *id {
                return Some(i);
            }
            i += 1;
        }
        None
    }

    /// Records `list` as what fence `id` holds.
    fn store(&mut self, id: &String, list: Vec<String>)
        requires
            old(self).wf(),
        ensures
            final(self).wf(),
            final(self).map() == old(self).map().insert(id@, string_views(list@)),
    {
        let ghost before = self.map();
        match self.find(id) {
            Some(i) => {
                self.held.set(i, list);
                proof {
                    assert forall|k: int| 0 <= k < self.ids@.len() implies self.map()[self.ids@[k]@]
                        == before.insert(id@, string_views(list@))[self.ids@[k]@] by {
                        self.lemma_map_at(k);
                        if k != i {
                            old(self).lemma_map_at(k);
                        }
                    }
                    assert(self.map() =~= before.insert(id@, string_views(list@)));
                }
            },
            None => {
                self.ids.push(id.clone());
                self.held.push(list);
                proof {
                    let n = self.ids@.len() - 1;
                    assert(self.wf());
                    assert forall|k: int| 0 <= k < self.ids@.len() implies self.map()[self.ids@[k]@]
                        == before.insert(id@, string_views(list@))[self.ids@[k]@] by {
                        self.lemma_map_at(k);
                        if k < n {
                            old(self).lemma_map_at(k);
                        }
                    }
                    assert forall|key: Seq<char>| #[trigger]
                        self.map().contains_key(key) == before.insert(
                            id@,
                            string_views(list@),
                        ).contains_key(key) by {
                        if key == id@ {
                            assert(self.ids@[n]@ == id@);
                        } else {
                            if self.map().contains_key(key) {
                                let k = choose|k: int|
                                    0 <= k < self.ids@.len() && self.ids@[k]@ == key;
                                assert(k < n);
                                assert(old(self).ids@[k] == self.ids@[k]);
                                assert(old(self).ids@[k]@ == key);
                            }
                            if before.contains_key(key) {
                                let k = choose|k: int|
                                    0 <= k < old(self).ids@.len() && old(self).ids@[k]@ == key;
                                assert(self.ids@[k] == old(self).ids@[k]);
                                assert(self.ids@[k]@ == key);
                            }
                        }
                    }
                    assert(self.map() =~= before.insert(id@, string_views(list@)));
                }
            },
        }
    }

    /// Runs one pass: for each fence in order, `inside[f][x]` tells whether
    /// fix `x` lies inside fence `f`.
    pub fn pass(&mut self, fences: &[FenceRef], fixes: &[FixRef], inside: &[Vec<bool>]) -> (breaches: Vec<GeofenceBreach>)
        requires
            old(self).wf(),
            inside@.len() == fences@.len(),
            forall|f: int| 0 <= f < inside@.len() ==> (#[trigger] inside@[f])@.len() == fixes@.len(),
        ensures
            final(self).wf(),
            (final(self).map(), breach_views(breaches@)) == spec_pass(
                old(self).map(),
                fence_views(fences@),
                fix_views(fixes@),
                row_views(inside@),
            ),
    {
        let ghost fs = fence_views(fences@);
        let ghost xs = fix_views(fixes@);
        let ghost rows = row_views(inside@);
        let mut breaches: Vec<GeofenceBreach> = Vec::new();
        let mut f: usize = 0;
        proof {
            assert(fs.subrange(0, 0) =~= Seq::<(Seq<char>, Seq<char>)>::empty());
            assert(breach_views(breaches@) =~= Seq::<BreachModel>::empty());
        }
        while f < fences.len()
            invariant
                self.wf(),
                fs == fence_views(fences@),
                xs == fix_views(fixes@),
                rows == row_views(inside@),
                inside@.len() == fences@.len(),
                forall|g: int| 0 <= g < inside@.len() ==> (#[trigger] inside@[g])@.len() == fixes@.len(),
                f <= fences@.len(),
                (self.map(), breach_views(breaches@)) == spec_pass(
                    old(self).map(),
                    fs.subrange(0, f as int),
                    xs,
                    rows.subrange(0, f as int),
                ),
            decreases fences.len() - f,
        {
            let ghost o1 = self.map();
            let ghost b1 = breach_views(breaches@);
            let fence = &fences[f];
            let row = &inside[f];
            let before: Vec<String> = match self.find(&fence.id) {
                Some(i) => {
                    proof {
                        self.lemma_map_at(i as int);
                    }
                    self.held[i].clone()
                },
                None => Vec::new(),
            };
            let ghost held = held_by(o1, fence.id@);
            assert(string_views(before@) =~= held);
            let mut still: Vec<String> = Vec::new();
            let mut x: usize = 0;
            while x < fixes.len()
                invariant
                    xs == fix_views(fixes@),
                    row@.len() == fixes@.len(),
                    x <= fixes@.len(),
                    string_views(before@) == held,
                    string_views(still@) == inside_icaos(xs, row@, x as nat),
                    breach_views(breaches@) == b1 + entries(
                        fence.id@,
                        fence.name@,
                        xs,
                        row@,
                        held,
                        x as nat,
                    ),
                decreases fixes.len() - x,
            {
                let fx = &fixes[x];
                let ghost s0 = string_views(still@);
                let ghost v0 = breach_views(breaches@);
                if row[x] {
                    still.push(fx.icao24.clone());
                    assert(string_views(still@) =~= s0.push(fx.icao24@));
                    if !holds(&before, &fx.icao24) {
                        breaches.push(
                            GeofenceBreach {
                                fence_id: fence.id.clone(),
                                fence_name: fence.name.clone(),
                                icao24: fx.icao24.clone(),
                                callsign: fx.callsign.clone(),
                                entered_ms: fx.now_ms,
                            },
                        );
                        assert(breach_views(breaches@) =~= v0.push(breach_view(breaches@.last())));
                    }
                }
                assert(xs[x as int] == fx@);
                x += 1;
            }
            assert(xs.len() == fixes@.len());
            self.store(&fence.id, still);
            proof {
                assert(fs.subrange(0, f + 1).drop_last() =~= fs.subrange(0, f as int));
                assert(rows.subrange(0, f + 1).drop_last() =~= rows.subrange(0, f as int));
                assert(fs.subrange(0, f + 1).last() == (fence.id@, fence.name@));
                assert(rows.subrange(0, f + 1)[f as int] == row@);
            }
            f += 1;
        }
        proof {
            assert(fs.subrange(0, fences@.len() as int) =~= fs);
            assert(rows.subrange(0, fences@.len() as int) =~= rows);
        }
        breaches
    }
}

/// Whether `list` holds the address `icao24`.
fn holds(list: &Vec<String>, icao24: &String) -> (b: bool)
    ensures
        b == string_views(list@).contains(icao24@),
{
    let mut i: usize = 0;
    while i < list.len()
        invariant
            i <= list@.len(),
            forall|j: int| 0 <= j < i ==> list@[j]@ != icao24@,
        decreases list.len() - i,
    {
        if list[i] == *icao24 {
            assert(string_views(list@)[i as int] == icao24@);
            return true;
        }
        i += 1;
    }
    proof {
        if string_views(list@).contains(icao24@) {
            let j = choose|j: int| 0 <= j < list@.len() && string_views(list@)[j] == icao24@;
            assert(list@[j]@ == icao24@);
        }
    }
    false
}

/// Some event among `bs` concerns aircraft `a`.
pub open spec fn reports(bs: Seq<BreachModel>, a: Seq<char>) -> bool {
    exists|j: int| 0 <= j < bs.len() && bs[j].icao24 == a
}

proof fn lemma_entries_report(
    id: Seq<char>,
    name: Seq<char>,
    fixes: Seq<FixModel>,
    row: Seq<bool>,
    held: Seq<Seq<char>>,
    k: nat,
    a: Seq<char>,
)
    requires
        k <= fixes.len(),
        k <= row.len(),
    ensures
        reports(entries(id, name, fixes, row, held, k), a) <==> (inside_icaos(fixes, row, k).contains(
            a,
        ) && !held.contains(a)),
    decreases k,
{
    if k > 0 {
        lemma_entries_report(id, name, fixes, row, held, (k - 1) as nat, a);
        let e0 = entries(id, name, fixes, row, held, (k - 1) as nat);
        let i0 = inside_icaos(fixes, row, (k - 1) as nat);
        let e1 = entries(id, name, fixes, row, held, k);
        let i1 = inside_icaos(fixes, row, k);
        let x = fixes[k - 1];
        if row[k - 1] {
            assert(i1 == i0.push(x.icao24));
            assert(i1.contains(a) <==> (i0.contains(a) || x.icao24 == a)) by {
                if i1.contains(a) {
                    let j = choose|j: int| 0 <= j < i1.len() && i1[j] == a;
                    if j < i0.len() {
                        assert(i0[j] == a);
                    }
                }
                if i0.contains(a) {
                    let j = choose|j: int| 0 <= j < i0.len() && i0[j] == a;
                    assert(i1[j] == a);
                }
                if x.icao24 == a {
                    assert(i1[i0.len() as int] == a);
                }
            }
            if !held.contains(x.icao24) {
                assert(reports(e1, a) <==> (reports(e0, a) || x.icao24 == a)) by {
                    if reports(e1, a) {
                        let j = choose|j: int| 0 <= j < e1.len() && e1[j].icao24 == a;
                        if j < e0.len() {
                            assert(e0[j] == e1[j]);
                        }
                    }
                    if reports(e0, a) {
                        let j = choose|j: int| 0 <= j < e0.len() && e0[j].icao24 == a;
                        assert(e1[j] == e0[j]);
                    }
                    if x.icao24 == a {
                        assert(e1[e0.len() as int].icao24 == a);
                    }
                }
            }
        }
    }
}

/// Entry events only: across two passes over the same fence, an aircraft
/// raises an entry at the second pass exactly when it is inside then and
/// was not inside at the first, so continuous presence never re-triggers
/// and leaving re-arms the fence.
pub proof fn entry_events_only(
    occ: Map<Seq<char>, Seq<Seq<char>>>,
    fence: (Seq<char>, Seq<char>),
    fixes1: Seq<FixModel>,
    row1: Seq<bool>,
    fixes2: Seq<FixModel>,
    row2: Seq<bool>,
    a: Seq<char>,
)
    requires
        row1.len() == fixes1.len(),
        row2.len() == fixes2.len(),
    ensures
        reports(
            spec_pass(spec_pass(occ, seq![fence], fixes1, seq![row1]).0, seq![fence], fixes2, seq![row2]).1,
            a,
        ) <==> (inside_icaos(fixes2, row2, fixes2.len()).contains(a) && !inside_icaos(
            fixes1,
            row1,
            fixes1.len(),
        ).contains(a)),
{
    reveal_with_fuel(spec_pass, 2);
    let fs = seq![fence];
    assert(fs.drop_last() =~= Seq::<(Seq<char>, Seq<char>)>::empty());
    assert(seq![row1].drop_last() =~= Seq::<Seq<bool>>::empty());
    assert(seq![row2].drop_last() =~= Seq::<Seq<bool>>::empty());
    let o1 = spec_pass(occ, fs, fixes1, seq![row1]).0;
    assert(o1 == occ.insert(fence.0, inside_icaos(fixes1, row1, fixes1.len())));
    assert(held_by(o1, fence.0) == inside_icaos(fixes1, row1, fixes1.len()));
    let b2 = spec_pass(o1, fs, fixes2, seq![row2]).1;
    let e = entries(
        fence.0,
        fence.1,
        fixes2,
        row2,
        inside_icaos(fixes1, row1, fixes1.len()),
        fixes2.len(),
    );
    assert(b2 =~= Seq::<BreachModel>::empty() + e);
    assert(b2 =~= e);
    lemma_entries_report(
        fence.0,
        fence.1,
        fixes2,
        row2,
        inside_icaos(fixes1, row1, fixes1.len()),
        fixes2.len(),
        a,
    );
}

// ---------------------------------------------------------------------------
// Arming and disarming fences
// ---------------------------------------------------------------------------

/// A fence's id and whether it takes part in passes.
#[derive(Debug, Clone)]
pub struct FenceFlag {
    pub id: String,
    pub active: bool,
}

/// `k` is the first fence carrying `id`.
pub open spec fn first_with_id(flags: Seq<FenceFlag>, id: Seq<char>, k: int) -> bool {
    &&& 0 <= k < flags.len()
    &&& flags[k].id@ == id
    &&& forall|j: int| 0 <= j < k ==> flags[j].id@ != id
}

/// Arms or disarms the first fence carrying `id`; reports whether there
/// was one. No other fence, and no id, changes.
pub fn set_active(flags: &mut Vec<FenceFlag>, id: &str, active: bool) -> (found: bool)
    ensures
        found == exists|i: int| 0 <= i < old(flags)@.len() && old(flags)@[i].id@ == id@,
        final(flags)@.len() == old(flags)@.len(),
        found ==> exists|k: int|
            {
                &&& first_with_id(old(flags)@, id@, k)
                &&& final(flags)@[k].active == active
                &&& final(flags)@[k].id == old(flags)@[k].id
                &&& forall|i: int|
                    0 <= i < old(flags)@.len() && i != k ==> final(flags)@[i] == old(flags)@[i]
            },
        !found ==> final(flags)@ == old(flags)@,
{
    let key = id.to_owned();
    let mut i: usize = 0;
    while i < flags.len()
        invariant
            i <= flags@.len(),
            flags@ == old(flags)@,
            key@ == id@,
            forall|j: int| 0 <= j < i ==> flags@[j].id@ != id@,
        decreases flags.len() - i,
    {
        if flags[i].id == key {
            let ghost before = flags@;
            let updated = FenceFlag { id: flags[i].id.clone(), active };
            flags.set(i, updated);
            assert(first_with_id(before, id@, i as int));
            return true;
        }
        i += 1;
    }
    false
}

} // verus!
