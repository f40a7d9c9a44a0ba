//! Building sites: how far a construction has come, and the materials it still needs.

use vstd::prelude::*;

verus! {

/// Marks a finished building.
pub struct Structure;

/// Whether the building tool is in use.
#[derive(Clone, Copy, Debug, PartialEq, Eq, Hash, Structural)]
pub enum BuildToolState {
    Inactive,
    Placing,
}

/// The amount of progress at which a construction is finished.
pub const FULL_PROGRESS: u32 = 100;

/// A building under construction, with its progress from 0 to `FULL_PROGRESS`.
pub struct UnderConstruction {
    progress: u32,
}

impl UnderConstruction {
    #[verifier::type_invariant]
    spec fn within_full(&self) -> bool {
        self.progress <= FULL_PROGRESS
    }

    /// The progress so far.
    pub closed spec fn progress_view(&self) -> nat {
        self.progress as nat
    }

    /// A construction that has just begun: no progress.
    pub fn new() -> (site: UnderConstruction)
        ensures
            site.progress_view() == 0,
    {
        UnderConstruction { progress: 0 }
    }

    /// The progress so far.
    pub fn progress(&self) -> (progress: u32)
        ensures
            progress == self.progress_view(),
            progress <= FULL_PROGRESS,
    {
        proof {
            use_type_invariant(self);
        }
        self.progress
    }

    /// Adds progress, stopping at `FULL_PROGRESS`.
    pub fn add_progress(&mut self, amount: u32)
        requires
            old(self).progress_view() + amount <= u32::MAX,
        ensures
            final(self).progress_view() == if old(self).progress_view() + amount > FULL_PROGRESS {
                FULL_PROGRESS as int
            } else {
                old(self).progress_view() + amount
            },
    {
        proof {
            use_type_invariant(&*self);
        }
        let sum = self.progress + amount;
        self.progress = if sum > FULL_PROGRESS { FULL_PROGRESS } else { sum };
    }

    /// Whether the construction is finished.
    pub fn finished(&self) -> (finished: bool)
        ensures
            finished == (self.progress_view() == FULL_PROGRESS),
    {
        self.progress == FULL_PROGRESS
    }
}

impl Default for UnderConstruction {
    /// A construction that has just begun: no progress.
    fn default() -> (site: UnderConstruction)
        ensures
            site.progress_view() == 0,
    {
        UnderConstruction::new()
    }
}

/// Progress only grows, never passes `FULL_PROGRESS`, and adding to a finished construction
/// leaves it finished.
pub proof fn law_progress_grows_to_full(before: nat, amount: nat)
    requires
        before <= FULL_PROGRESS,
    ensures
        ({
            let after = if before + amount > FULL_PROGRESS { FULL_PROGRESS as nat } else { before + amount };
            &&& before <= after <= FULL_PROGRESS
            &&& before == FULL_PROGRESS ==> after == FULL_PROGRESS
            &&& before + amount >= FULL_PROGRESS ==> after == FULL_PROGRESS
        }),
{
}

/// The materials a construction still needs, each by name with an amount.
pub struct BuildingMaterialsNeeded(Vec<(String, u32)>);

/// A list of named amounts as values.
pub open spec fn needs_view(needs: Seq<(String, u32)>) -> Seq<(Seq<char>, u32)> {
    needs.map_values(|entry: (String, u32)| (entry.0@, entry.1))
}

/// The needs after a delivery of `amount` of `name`: every entry of that name drops by the
/// amount, but not below zero.
pub open spec fn after_delivery(needs: Seq<(Seq<char>, u32)>, name: Seq<char>, amount: u32) -> Seq<(Seq<char>, u32)> {
    needs.map_values(
        |entry: (Seq<char>, u32)|
            if entry.0 == name {
                (entry.0, if entry.1 >= amount { (entry.1 - amount) as u32 } else { 0u32 })
            } else {
                entry
            },
    )
}

/// The entries whose amount is not zero, in order.
pub open spec fn still_needed(needs: Seq<(Seq<char>, u32)>) -> Seq<(Seq<char>, u32)>
    decreases needs.len(),
{
    if needs.len() == 0 {
        needs
    } else if needs.last().1 > 0 {
        still_needed(needs.drop_last()).push(needs.last())
    } else {
        still_needed(needs.drop_last())
    }
}

/// Keeping only the entries still needed leaves no entry at zero and no more entries than
/// before.
pub proof fn lemma_still_needed(needs: Seq<(Seq<char>, u32)>)
    ensures
        forall|k: int| 0 <= k < still_needed(needs).len() ==> #[trigger] still_needed(needs)[k].1 > 0,
        still_needed(needs).len() <= needs.len(),
    decreases needs.len(),
{
    if needs.len() > 0 {
        lemma_still_needed(needs.drop_last());
    }
}

/// The index of the first entry of `name`, if there is one.
pub open spec fn first_of(needs: Seq<(Seq<char>, u32)>, name: Seq<char>) -> Option<int> {
    if exists|k: int| 0 <= k < needs.len() && needs[k].0 == name {
        Some(choose|k: int| 0 <= k < needs.len() && needs[k].0 == name && forall|m: int| 0 <= m < k ==> needs[m].0 != name)
    } else {
        None
    }
}

/// An entry of `name` at `w` means there is a first one.
proof fn lemma_first_exists(needs: Seq<(Seq<char>, u32)>, name: Seq<char>, w: int)
    requires
        0 <= w < needs.len(),
        needs[w].0 == name,
    ensures
        exists|k: int| 0 <= k < needs.len() && needs[k].0 == name && forall|m: int| 0 <= m < k ==> needs[m].0 != name,
    decreases w,
{
    if exists|m: int| 0 <= m < w && needs[m].0 == name {
        let m = choose|m: int| 0 <= m < w && needs[m].0 == name;
        lemma_first_exists(needs, name, m);
    } else {
        assert(forall|m: int| 0 <= m < w ==> needs[m].0 != name);
    }
}

/// `first_of` gives the first entry of `name`, and `None` only when there is none.
pub proof fn lemma_first_of(needs: Seq<(Seq<char>, u32)>, name: Seq<char>)
    ensures
        match first_of(needs, name) {
            Some(k) => 0 <= k < needs.len() && needs[k].0 == name && forall|m: int| 0 <= m < k ==> needs[m].0 != name,
            None => forall|m: int| 0 <= m < needs.len() ==> needs[m].0 != name,
        },
{
    if exists|k: int| 0 <= k < needs.len() && needs[k].0 == name {
        let w = choose|k: int| 0 <= k < needs.len() && needs[k].0 == name;
        lemma_first_exists(needs, name, w);
    }
}

/// The needs after one unit of `name` arrives: the first entry of that name drops by one
/// (not below zero), and then every entry at zero is dropped.
pub open spec fn after_one_arrives(needs: Seq<(Seq<char>, u32)>, name: Seq<char>) -> Seq<(Seq<char>, u32)> {
    match first_of(needs, name) {
        Some(k) => still_needed(needs.update(k, (name, if needs[k].1 >= 1 { (needs[k].1 - 1) as u32 } else { 0u32 }))),
        None => still_needed(needs),
    }
}

/// After a unit of material arrives, every material still listed is needed in an amount
/// above zero, and the list is no longer than before.
pub proof fn law_arrival_lists_only_what_is_needed(needs: Seq<(Seq<char>, u32)>, name: Seq<char>)
    ensures
        forall|k: int| 0 <= k < after_one_arrives(needs, name).len() ==> #[trigger] after_one_arrives(needs, name)[k].1 > 0,
        after_one_arrives(needs, name).len() <= needs.len(),
{
    lemma_first_of(needs, name);
    match first_of(needs, name) {
        Some(k) => lemma_still_needed(needs.update(k, (name, if needs[k].1 >= 1 { (needs[k].1 - 1) as u32 } else { 0u32 }))),
        None => lemma_still_needed(needs),
    }
}

/// The total amount of `name` the list asks for.
pub open spec fn amount_needed(needs: Seq<(Seq<char>, u32)>, name: Seq<char>) -> nat
    decreases needs.len(),
{
    if needs.len() == 0 {
        0
    } else {
        amount_needed(needs.drop_last(), name) + if needs.last().0 == name { needs.last().1 as nat } else { 0 }
    }
}

/// Dropping the entries at zero changes no total.
proof fn lemma_still_needed_amount(needs: Seq<(Seq<char>, u32)>, name: Seq<char>)
    ensures
        amount_needed(still_needed(needs), name) == amount_needed(needs, name),
    decreases needs.len(),
{
    if needs.len() > 0 {
        lemma_still_needed_amount(needs.drop_last(), name);
        if needs.last().1 > 0 {
            let kept = still_needed(needs.drop_last());
            assert(kept.push(needs.last()).drop_last() =~= kept);
        }
    }
}

/// The amount of `name` an entry asks for.
pub open spec fn entry_amount(entry: (Seq<char>, u32), name: Seq<char>) -> nat {
    if entry.0 == name { entry.1 as nat } else { 0 }
}

/// Replacing one entry changes a total by what the new entry asks for instead of the old.
proof fn lemma_update_amount(needs: Seq<(Seq<char>, u32)>, k: int, entry: (Seq<char>, u32), name: Seq<char>)
    requires
        0 <= k < needs.len(),
    ensures
        amount_needed(needs.update(k, entry), name) + entry_amount(needs[k], name)
            == amount_needed(needs, name) + entry_amount(entry, name),
    decreases needs.len(),
{
    let updated = needs.update(k, entry);
    if k == needs.len() - 1 {
        assert(updated.drop_last() =~= needs.drop_last());
    } else {
        lemma_update_amount(needs.drop_last(), k, entry, name);
        assert(updated.drop_last() =~= needs.drop_last().update(k, entry));
        assert(updated.last() == needs.last());
    }
}

/// One unit of a material arriving lowers what is needed of it by exactly one when its first
/// entry asks for some, and otherwise changes nothing that is needed; what is needed of
/// every other material stays the same.
pub proof fn law_one_arrival_lowers_the_need_by_one(needs: Seq<(Seq<char>, u32)>, name: Seq<char>, other: Seq<char>)
    ensures
        (exists|k: int| 0 <= k < needs.len() && needs[k].0 == name && needs[k].1 > 0
            && forall|m: int| 0 <= m < k ==> needs[m].0 != name)
            ==> amount_needed(after_one_arrives(needs, name), name) + 1 == amount_needed(needs, name),
        !(exists|k: int| 0 <= k < needs.len() && needs[k].0 == name && needs[k].1 > 0
            && forall|m: int| 0 <= m < k ==> needs[m].0 != name)
            ==> amount_needed(after_one_arrives(needs, name), name) == amount_needed(needs, name),
        other != name ==> amount_needed(after_one_arrives(needs, other), name) == amount_needed(needs, name),
{
    lemma_first_of(needs, name);
    lemma_first_of(needs, other);
    match first_of(needs, name) {
        Some(k) => {
            let entry = (name, if needs[k].1 >= 1 { (needs[k].1 - 1) as u32 } else { 0u32 });
            lemma_update_amount(needs, k, entry, name);
            lemma_still_needed_amount(needs.update(k, entry), name);
            if exists|j: int| 0 <= j < needs.len() && needs[j].0 == name && needs[j].1 > 0
                && forall|m: int| 0 <= m < j ==> needs[m].0 != name {
                let j = choose|j: int| 0 <= j < needs.len() && needs[j].0 == name && needs[j].1 > 0
                    && forall|m: int| 0 <= m < j ==> needs[m].0 != name;
                if j < k {
                    assert(needs[j].0 != name);
                } else if k < j {
                    assert(needs[k].0 != name);
                }
            }
        },
        None => {
            lemma_still_needed_amount(needs, name);
        },
    }
    if other != name {
        match first_of(needs, other) {
            Some(k) => {
                let entry = (other, if needs[k].1 >= 1 { (needs[k].1 - 1) as u32 } else { 0u32 });
                lemma_update_amount(needs, k, entry, name);
                lemma_still_needed_amount(needs.update(k, entry), name);
            },
            None => {
                lemma_still_needed_amount(needs, name);
            },
        }
    }
}

/// The index of the first entry named `name`; see `first_of`.
fn first_named(needs: &Vec<(String, u32)>, name: &String) -> (index: Option<usize>)
    ensures
        match first_of(needs_view(needs@), name@) {
            Some(k) => index matches Some(j) && j == k && k < needs@.len() && needs_view(needs@)[k].0 == name@,
            None => index is None,
        },
{
    let ghost all = needs_view(needs@);
    let mut i: usize = 0;
    while i < needs.len()
        invariant
            i <= needs@.len(),
            all == needs_view(needs@),
            forall|m: int| 0 <= m < i ==> all[m].0 != name@,
        decreases needs.len() - i,
    {
        if needs[i].0 == *name {
            proof {
                assert(all[i as int].0 == name@);
                let c = choose|c: int| 0 <= c < all.len() && all[c].0 == name@ && forall|m: int| 0 <= m < c ==> all[m].0 != name@;
                assert(0 <= i < all.len() && all[i as int].0 == name@ && forall|m: int| 0 <= m < i ==> all[m].0 != name@);
                assert(c == i);
            }
            return Some(i);
        }
        i = i + 1;
    }
    None
}

impl BuildingMaterialsNeeded {
    /// The needs as values.
    pub closed spec fn view_needs(&self) -> Seq<(Seq<char>, u32)> {
        needs_view(self.0@)
    }

    /// A construction needing the listed materials.
    pub fn new(resources_needed: Vec<(String, u32)>) -> (needs: BuildingMaterialsNeeded)
        ensures
            needs.view_needs() == needs_view(resources_needed@),
    {
        BuildingMaterialsNeeded(resources_needed)
    }

    /// The listed materials.
    pub fn resources_needed(&self) -> (needs: &Vec<(String, u32)>)
        ensures
            needs_view(needs@) == self.view_needs(),
    {
        &self.0
    }

    /// Records the delivery of `amount` of `resource`; see `after_delivery`.
    pub fn deliver_resource(&mut self, resource: &String, amount: u32)
        ensures
            final(self).view_needs() == after_delivery(old(self).view_needs(), resource@, amount),
    {
        let ghost start = self.view_needs();
        let ghost goal = after_delivery(start, resource@, amount);
        let mut updated: Vec<(String, u32)> = Vec::new();
        let mut i: usize = 0;
        while i < self.0.len()
            invariant
                i <= self.0@.len(),
                needs_view(self.0@) == start,
                goal == after_delivery(start, resource@, amount),
                goal.len() == start.len(),
                needs_view(updated@) =~= goal.take(i as int),
            decreases self.0.len() - i,
        {
            let name = self.0[i].0.clone();
            let count = self.0[i].1;
            let new_count = if name == *resource { count.saturating_sub(amount) } else { count };
            let ghost before = updated@;
            updated.push((name, new_count));
            proof {
                assert(start[i as int] == (self.0@[i as int].0@, count));
                assert(goal[i as int] == (name@, new_count));
                assert(goal.take(i + 1) =~= goal.take(i as int).push(goal[i as int]));
                assert(needs_view(updated@) =~= needs_view(before).push((name@, new_count)));
            }
            i = i + 1;
        }
        assert(goal.take(i as int) =~= goal);
        self.0 = updated;
    }

    /// Records the arrival of one unit of `name`; see `after_one_arrives`.
    pub fn material_arrived(&mut self, name: &String)
        ensures
            final(self).view_needs() == after_one_arrives(old(self).view_needs(), name@),
    {
        let ghost start = self.view_needs();
        let found = first_named(&self.0, name);
        let ghost updated = match first_of(start, name@) {
            Some(k) => start.update(k, (name@, if start[k].1 >= 1 { (start[k].1 - 1) as u32 } else { 0u32 })),
            None => start,
        };
        if found.is_some() {
            let i = found.unwrap();
            let count = self.0[i].1;
            let entry_name = self.0[i].0.clone();
            let ghost before = self.0@;
            self.0.set(i, (entry_name, count.saturating_sub(1)));
            proof {
                assert forall|m: int| 0 <= m < updated.len() implies needs_view(self.0@)[m] == updated[m] by {
                    if m != i {
                        assert(self.0@[m] == before[m]);
                    }
                }
            }
            assert(needs_view(self.0@) =~= updated);
        }
        let mut kept: Vec<(String, u32)> = Vec::new();
        let mut j: usize = 0;
        while j < self.0.len()
            invariant
                j <= self.0@.len(),
                needs_view(self.0@) == updated,
                needs_view(kept@) == still_needed(updated.take(j as int)),
            decreases self.0.len() - j,
        {
            proof {
                assert(updated.take(j + 1).drop_last() =~= updated.take(j as int));
                assert(updated.take(j + 1).last() == updated[j as int]);
            }
            if self.0[j].1 > 0 {
                let ghost before = kept@;
                kept.push((self.0[j].0.clone(), self.0[j].1));
                assert(needs_view(kept@) =~= needs_view(before).push(updated[j as int]));
            }
            j = j + 1;
        }
        assert(updated.take(j as int) =~= updated);
        self.0 = kept;
    }

    /// Whether nothing more is needed.
    pub fn is_satisfied(&self) -> (satisfied: bool)
        ensures
            satisfied == (self.view_needs().len() == 0),
    {
        self.0.len() == 0
    }
}

} // verus!
