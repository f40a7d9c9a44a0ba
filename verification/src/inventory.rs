//! Item stacks, inventory slots and the transfers between them.

use vstd::prelude::*;

verus! {

/// The largest amount a single stack may hold.
pub const MAX_STACK_SIZE: u32 = 1000;

/// An RGB colour with one byte per channel.
#[derive(Clone, Copy, Debug, PartialEq, Eq, Hash, Structural)]
pub struct U8Color {
    r: u8,
    g: u8,
    b: u8,
}

/// A kind of item, identified by its name and its colour.
#[derive(Clone, Debug, PartialEq, Eq, Hash)]
pub struct Item {
    pub name: String,
    pub color: U8Color,
}

/// What an item is, as a mathematical value: its name and its colour.
pub type ItemV = (Seq<char>, U8Color);

/// A stack as a value: the item and the amount.
pub type StackV = (ItemV, u32);

/// A slot as a value: empty, or holding a stack.
pub type SlotV = Option<StackV>;

impl View for Item {
    type V = ItemV;

    open spec fn view(&self) -> ItemV {
        (self.name@, self.color)
    }
}

impl U8Color {
    /// The colour with the three given channels.
    pub fn rgb(r: u8, g: u8, b: u8) -> (c: U8Color)
        ensures
            c.red() == r,
            c.green() == g,
            c.blue() == b,
    {
        U8Color { r, g, b }
    }

    pub closed spec fn red(&self) -> u8 {
        self.r
    }

    pub closed spec fn green(&self) -> u8 {
        self.g
    }

    pub closed spec fn blue(&self) -> u8 {
        self.b
    }

    /// Black: every channel zero.
    pub closed spec fn black() -> U8Color {
        U8Color { r: 0, g: 0, b: 0 }
    }

    /// Two colours with the same channels are the same colour; black has all channels zero.
    pub proof fn lemma_channels(a: U8Color, b: U8Color)
        ensures
            (a.red() == b.red() && a.green() == b.green() && a.blue() == b.blue()) <==> a == b,
            Self::black().red() == 0 && Self::black().green() == 0 && Self::black().blue() == 0,
    {
    }

    /// The three channels, red first.
    pub fn channels(&self) -> (rgb: (u8, u8, u8))
        ensures
            rgb == (self.red(), self.green(), self.blue()),
    {
        (self.r, self.g, self.b)
    }
}

impl Item {
    /// An item of the given name, coloured black.
    pub fn new(name: &str) -> (item: Item)
        ensures
            item@ == (name@, U8Color::black()),
    {
        Item { name: name.to_owned(), color: U8Color { r: 0, g: 0, b: 0 } }
    }

    /// An item of the given name and colour.
    pub fn with_color(name: String, color: U8Color) -> (item: Item)
        ensures
            item@ == (name@, color),
    {
        Item { name, color }
    }

    /// True exactly when both items have the same name and colour.
    pub fn same_as(&self, other: &Item) -> (same: bool)
        ensures
            same == (self@ == other@),
    {
        let same_name = self.name == other.name;
        same_name && self.color == other.color
    }

    /// A copy of the item.
    pub fn duplicate(&self) -> (copy: Item)
        ensures
            copy@ == self@,
    {
        Item { name: self.name.clone(), color: self.color }
    }
}


/// A number of items of one kind.
#[derive(Clone, Debug, PartialEq, Eq, Hash)]
pub struct Stack {
    pub resource: Item,
    pub amount: u32,
}

impl View for Stack {
    type V = StackV;

    open spec fn view(&self) -> StackV {
        (self.resource@, self.amount)
    }
}

/// A slot of an inventory: empty, or holding one stack.
pub type Slot = Option<Stack>;

/// The value of a slot.
pub open spec fn slot_view(slot: Slot) -> SlotV {
    match slot {
        Some(stack) => Some(stack@),
        None => None,
    }
}

/// The values of a sequence of slots.
pub open spec fn slots_view(slots: Seq<Slot>) -> Seq<SlotV> {
    slots.map_values(|slot: Slot| slot_view(slot))
}

/// The values of a list of (item, amount) requests.
pub open spec fn items_view(items: Seq<(Item, u32)>) -> Seq<(ItemV, u32)> {
    items.map_values(|entry: (Item, u32)| (entry.0@, entry.1))
}

/// How many of `item` the slot holds.
pub open spec fn amount_in(slot: SlotV, item: ItemV) -> nat {
    match slot {
        Some(stack) => if stack.0 == item { stack.1 as nat } else { 0 },
        None => 0,
    }
}

/// How many of `item` the slots hold altogether.
pub open spec fn count(slots: Seq<SlotV>, item: ItemV) -> nat
    decreases slots.len(),
{
    if slots.len() == 0 {
        0
    } else {
        count(slots.drop_last(), item) + amount_in(slots.last(), item)
    }
}

/// Every request of the list is covered by what the slots hold, each on its own.
pub open spec fn holds_all(slots: Seq<SlotV>, items: Seq<(ItemV, u32)>) -> bool {
    forall|k: int| 0 <= k < items.len() ==> count(slots, #[trigger] items[k].0) >= items[k].1
}

/// Every item asked for is held at least in the total asked for it over the whole list.
pub open spec fn holds_totals(slots: Seq<SlotV>, items: Seq<(ItemV, u32)>) -> bool {
    forall|k: int| 0 <= k < items.len() ==> count(slots, #[trigger] items[k].0) >= count_requests(items, items[k].0)
}

/// The total amount of `resource` asked for in the list.
fn requested(items: &[(Item, u32)], resource: &Item) -> (total: u128)
    ensures
        total == count_requests(items_view(items@), resource@),
{
    let ghost wanted = items_view(items@);
    let ghost item = resource@;
    let mut total: u128 = 0;
    let mut i: usize = 0;
    while i < items.len()
        invariant
            i <= items@.len(),
            wanted == items_view(items@),
            wanted.len() == items@.len(),
            item == resource@,
            total == count_requests(wanted.take(i as int), item),
            total <= i * 0x1_0000_0000,
        decreases items.len() - i,
    {
        proof {
            assert(wanted.take(i + 1).drop_last() =~= wanted.take(i as int));
            assert(wanted.take(i + 1).last() == wanted[i as int]);
        }
        if items[i].0.same_as(resource) {
            total = total + items[i].1 as u128;
        }
        i = i + 1;
    }
    assert(wanted.take(i as int) =~= wanted);
    total
}

/// Counting one more slot adds what that slot holds.
pub proof fn lemma_count_take_next(slots: Seq<SlotV>, item: ItemV, j: int)
    requires
        0 <= j < slots.len(),
    ensures
        count(slots.take(j + 1), item) == count(slots.take(j), item) + amount_in(slots[j], item),
{
    assert(slots.take(j + 1).drop_last() =~= slots.take(j));
}

/// The count of two sequences laid end to end is the sum of their counts.
pub proof fn lemma_count_concat(a: Seq<SlotV>, b: Seq<SlotV>, item: ItemV)
    ensures
        count(a + b, item) == count(a, item) + count(b, item),
    decreases b.len(),
{
    if b.len() == 0 {
        assert(a + b =~= a);
    } else {
        assert((a + b).drop_last() =~= a + b.drop_last());
        lemma_count_concat(a, b.drop_last(), item);
    }
}

/// A prefix never holds more than the whole.
pub proof fn lemma_count_take_le(slots: Seq<SlotV>, item: ItemV, j: int)
    requires
        0 <= j <= slots.len(),
    ensures
        count(slots.take(j), item) <= count(slots, item),
{
    assert(slots =~= slots.take(j) + slots.skip(j));
    lemma_count_concat(slots.take(j), slots.skip(j), item);
}

/// A slot sequence that begins with one slot counts that slot plus the rest.
pub proof fn lemma_count_cons(slots: Seq<SlotV>, item: ItemV)
    requires
        slots.len() > 0,
    ensures
        count(slots, item) == amount_in(slots[0], item) + count(slots.drop_first(), item),
{
    assert(slots =~= seq![slots[0]] + slots.drop_first());
    lemma_count_concat(seq![slots[0]], slots.drop_first(), item);
    let single = seq![slots[0]];
    assert(single.drop_last() =~= Seq::<SlotV>::empty());
    assert(count(Seq::<SlotV>::empty(), item) == 0);
    assert(count(single, item) == amount_in(slots[0], item));
}

/// The slots after taking `amount` of `item` out of them, front to back: each
/// matching stack gives what it can, and a stack left with nothing empties its slot.
pub open spec fn take_out(slots: Seq<SlotV>, item: ItemV, amount: nat) -> Seq<SlotV>
    decreases slots.len(),
{
    if slots.len() == 0 || amount == 0 {
        slots
    } else {
        let head = slots[0];
        let rest = slots.drop_first();
        match head {
            Some(stack) => if stack.0 == item {
                if stack.1 >= amount {
                    let left = (stack.1 - amount) as u32;
                    seq![if left == 0 { None } else { Some((item, left)) }] + rest
                } else {
                    seq![None] + take_out(rest, item, (amount - stack.1) as nat)
                }
            } else {
                seq![head] + take_out(rest, item, amount)
            },
            None => seq![head] + take_out(rest, item, amount),
        }
    }
}

/// The slots after taking out each request of the list in turn.
pub open spec fn take_out_all(slots: Seq<SlotV>, items: Seq<(ItemV, u32)>) -> Seq<SlotV>
    decreases items.len(),
{
    if items.len() == 0 {
        slots
    } else {
        take_out_all(take_out(slots, items[0].0, items[0].1 as nat), items.drop_first())
    }
}

/// Every stack holds at most `MAX_STACK_SIZE`.
pub open spec fn stacks_within_limit(slots: Seq<SlotV>) -> bool {
    forall|k: int| 0 <= k < slots.len() && (#[trigger] slots[k]) is Some ==> slots[k].unwrap().1 <= MAX_STACK_SIZE
}

/// Puts a prefix in front of the slots of a result.
pub open spec fn after_prefix(prefix: Seq<SlotV>, result: Option<(Seq<SlotV>, nat)>) -> Option<(Seq<SlotV>, nat)> {
    match result {
        Some((slots, left)) => Some((prefix + slots, left)),
        None => None,
    }
}

/// Tops up the stacks of `item`, front to back, with `amount`: each such stack is filled
/// up to `MAX_STACK_SIZE`, and the scan ends at the first stack after which nothing is left.
/// The result is the new slots and what could not be placed; it is `None` when a stack of
/// `item` already holds more than `MAX_STACK_SIZE`, whose free space cannot be computed.
pub open spec fn fill_stacks(slots: Seq<SlotV>, item: ItemV, amount: nat) -> Option<(Seq<SlotV>, nat)>
    decreases slots.len(),
{
    if slots.len() == 0 {
        Some((slots, amount))
    } else {
        let rest = slots.drop_first();
        match slots[0] {
            None => after_prefix(seq![None], fill_stacks(rest, item, amount)),
            Some(stack) => {
                if stack.0 == item && stack.1 > MAX_STACK_SIZE {
                    None
                } else {
                    let space = MAX_STACK_SIZE - stack.1;
                    let head: SlotV = if stack.0 != item {
                        slots[0]
                    } else if space >= amount {
                        Some((item, (stack.1 + amount) as u32))
                    } else {
                        Some((item, MAX_STACK_SIZE))
                    };
                    let left: nat = if stack.0 != item {
                        amount
                    } else if space >= amount {
                        0
                    } else {
                        (amount - space) as nat
                    };
                    if left == 0 {
                        Some((seq![head] + rest, 0))
                    } else {
                        after_prefix(seq![head], fill_stacks(rest, item, left))
                    }
                }
            },
        }
    }
}

/// Puts `amount` of `item` into the empty slots, front to back, up to `MAX_STACK_SIZE` in
/// each, until nothing is left. The result is the new slots and what is left over; slots
/// that hold a stack stay as they are.
pub open spec fn fill_empty(slots: Seq<SlotV>, item: ItemV, amount: nat) -> (Seq<SlotV>, nat)
    decreases slots.len(),
{
    if slots.len() == 0 || amount == 0 {
        (slots, amount)
    } else {
        let rest = slots.drop_first();
        match slots[0] {
            None => {
                let put: u32 = if amount > MAX_STACK_SIZE { MAX_STACK_SIZE } else { amount as u32 };
                let (inner, left) = fill_empty(rest, item, (amount - put) as nat);
                (seq![Some((item, put))] + inner, left)
            },
            Some(_) => {
                let (inner, left) = fill_empty(rest, item, amount);
                (seq![slots[0]] + inner, left)
            },
        }
    }
}

/// Adds one request to the slots: it is first spread over the existing stacks of its
/// item; what is left goes into the empty slots, front to back, up to `MAX_STACK_SIZE` in
/// each. The result is the new slots and the amount handed back, which is what no slot could
/// take. `None` where `fill_stacks` is.
pub open spec fn add_one(slots: Seq<SlotV>, item: ItemV, amount: nat) -> Option<(Seq<SlotV>, Option<nat>)> {
    match fill_stacks(slots, item, amount) {
        None => None,
        Some((filled, left)) => {
            if left == 0 {
                Some((filled, None))
            } else {
                let (placed, back) = fill_empty(filled, item, left);
                Some((placed, if back == 0 { None } else { Some(back) }))
            }
        },
    }
}

/// Adds every request in turn (see `add_one`), collecting what is handed back after `rest`.
/// `None` where `add_one` is.
pub open spec fn add_all(slots: Seq<SlotV>, items: Seq<(ItemV, u32)>, rest: Seq<(ItemV, u32)>) -> Option<
    (Seq<SlotV>, Seq<(ItemV, u32)>),
>
    decreases items.len(),
{
    if items.len() == 0 {
        Some((slots, rest))
    } else {
        match add_one(slots, items[0].0, items[0].1 as nat) {
            None => None,
            Some((next, back)) => add_all(
                next,
                items.drop_first(),
                match back {
                    Some(left) => rest.push((items[0].0, left as u32)),
                    None => rest,
                },
            ),
        }
    }
}

/// Adding the requests leaves nothing to hand back.
pub open spec fn all_placed(slots: Seq<SlotV>, items: Seq<(ItemV, u32)>) -> bool {
    add_all(slots, items, seq![]) matches Some((_, left)) && left.len() == 0
}

/// Puts a slot in front of the slots of a result that carries a leftover stack.
pub open spec fn prefix_stack(head: SlotV, result: Option<(Seq<SlotV>, Option<StackV>)>) -> Option<(Seq<SlotV>, Option<StackV>)> {
    match result {
        Some((slots, left)) => Some((seq![head] + slots, left)),
        None => None,
    }
}

/// Puts a stack into the slots, front to back: each stack of the same item takes what it
/// can up to `MAX_STACK_SIZE`; the first empty slot takes the whole rest. The result is the
/// new slots and what is left over; `None` when a stack of the item and the rest together
/// pass `u32::MAX`.
pub open spec fn place_stack(slots: Seq<SlotV>, stack: StackV) -> Option<(Seq<SlotV>, Option<StackV>)>
    decreases slots.len(),
{
    if slots.len() == 0 {
        Some((slots, Some(stack)))
    } else {
        let rest = slots.drop_first();
        match slots[0] {
            None => Some((seq![Some(stack)] + rest, None)),
            Some(existing) => {
                if existing.0 != stack.0 {
                    prefix_stack(slots[0], place_stack(rest, stack))
                } else if existing.1 + stack.1 > u32::MAX {
                    None
                } else {
                    let sum = existing.1 + stack.1;
                    let kept: u32 = if sum > MAX_STACK_SIZE { MAX_STACK_SIZE } else { sum as u32 };
                    let over = (sum - kept) as u32;
                    if over == 0 {
                        Some((seq![Some((existing.0, kept))] + rest, None))
                    } else {
                        prefix_stack(Some((existing.0, kept)), place_stack(rest, (stack.0, over)))
                    }
                }
            },
        }
    }
}

/// Takes a stack out of the slots, front to back. The first stack met decides the item;
/// from it and from every later stack of that item up to `max_size` is taken, and a stack
/// left with nothing empties its slot. `taken` is what was collected before these slots.
/// `None` when the collected amount would pass `u32::MAX`.
pub open spec fn take_from(slots: Seq<SlotV>, max_size: u32, taken: Option<StackV>) -> Option<(Seq<SlotV>, Option<StackV>)>
    decreases slots.len(),
{
    if slots.len() == 0 {
        Some((slots, taken))
    } else {
        let rest = slots.drop_first();
        match slots[0] {
            None => prefix_stack(None, take_from(rest, max_size, taken)),
            Some(existing) => {
                let n: u32 = if max_size < existing.1 { max_size } else { existing.1 };
                let left = (existing.1 - n) as u32;
                let head: SlotV = if left == 0 { None } else { Some((existing.0, left)) };
                match taken {
                    None => prefix_stack(head, take_from(rest, max_size, Some((existing.0, n)))),
                    Some(acc) => {
                        if acc.0 != existing.0 {
                            prefix_stack(slots[0], take_from(rest, max_size, taken))
                        } else if acc.1 + n > u32::MAX {
                            None
                        } else {
                            prefix_stack(head, take_from(rest, max_size, Some((acc.0, (acc.1 + n) as u32))))
                        }
                    },
                }
            },
        }
    }
}

/// The two stacks after moving `source` onto `target`: nothing happens to two equal stacks;
/// stacks of the same item merge into the target up to `MAX_STACK_SIZE`, the source keeping
/// the rest; stacks of different items swap places.
pub open spec fn transferred(source: StackV, target: StackV) -> (StackV, StackV) {
    if source == target {
        (source, target)
    } else if target.0 == source.0 {
        let sum = target.1 + source.1;
        let kept: u32 = if sum > MAX_STACK_SIZE { MAX_STACK_SIZE } else { sum as u32 };
        ((source.0, (sum - kept) as u32), (target.0, kept))
    } else {
        (target, source)
    }
}

/// The merge of `source` into `target` stays within `u32`.
pub open spec fn transfer_fits(source: StackV, target: StackV) -> bool {
    source != target && target.0 == source.0 ==> target.1 + source.1 <= u32::MAX
}

/// The two slots after moving the source slot onto the target slot: a stack moves into an
/// empty target; two stacks go through `transferred`, and a source left with nothing empties.
pub open spec fn slots_transferred(source: SlotV, target: SlotV) -> (SlotV, SlotV) {
    match source {
        None => (source, target),
        Some(s) => match target {
            None => (None, Some(s)),
            Some(t) => {
                let (s2, t2) = transferred(s, t);
                (if s2.1 == 0 { None } else { Some(s2) }, Some(t2))
            },
        },
    }
}

/// The slots after dropping the stack of slot `source` onto slot `target`. Nothing happens
/// when the source slot is out of range or empty.
pub open spec fn dropped(slots: Seq<SlotV>, source: int, target: int) -> Seq<SlotV> {
    if 0 <= source < slots.len() && slots[source] is Some {
        let s = slots[source].unwrap();
        if slots[target] is Some {
            let (s2, t2) = transferred(s, slots[target].unwrap());
            slots.update(target, Some(t2)).update(source, if s2.1 > 0 { Some(s2) } else { None })
        } else {
            slots.update(target, Some(s)).update(source, None)
        }
    } else {
        slots
    }
}

/// Dropping slot `source` onto slot `target` can be done: when the source holds a stack,
/// the target is in range and a merge stays within `u32`.
pub open spec fn drop_allowed(slots: Seq<SlotV>, source: int, target: int) -> bool {
    0 <= source < slots.len() && slots[source] is Some ==> {
        &&& 0 <= target < slots.len()
        &&& slots[target] is Some ==> transfer_fits(slots[source].unwrap(), slots[target].unwrap())
    }
}

impl Stack {
    /// A stack of `amount` of `resource`.
    pub fn new(resource: Item, amount: u32) -> (stack: Stack)
        ensures
            stack@ == (resource@, amount),
    {
        Stack { resource, amount }
    }

    /// A copy of the stack.
    pub fn duplicate(&self) -> (copy: Stack)
        ensures
            copy@ == self@,
    {
        Stack { resource: self.resource.duplicate(), amount: self.amount }
    }

    /// True exactly when both stacks hold the same amount of the same item.
    pub fn same_as(&self, other: &Stack) -> (same: bool)
        ensures
            same == (self@ == other@),
    {
        self.amount == other.amount && self.resource.same_as(&other.resource)
    }

    /// Add an amount to the stack, returning the amount that could not be added:
    /// the stack is filled up to `MAX_STACK_SIZE` and the rest is handed back.
    pub fn add(&mut self, amount: u32) -> (overflow: u32)
        requires
            old(self).amount + amount <= u32::MAX,
        ensures
            final(self).resource@ == old(self).resource@,
            final(self).amount == if old(self).amount + amount > MAX_STACK_SIZE {
                MAX_STACK_SIZE as int
            } else {
                old(self).amount + amount
            },
            final(self).amount + overflow == old(self).amount + amount,
    {
        if self.amount + amount > MAX_STACK_SIZE {
            let overflow = self.amount + amount - MAX_STACK_SIZE;
            self.amount = MAX_STACK_SIZE;
            overflow
        } else {
            self.amount = self.amount + amount;
            0
        }
    }
}

/// A copy of a slot.
pub fn duplicate_slot(slot: &Slot) -> (copy: Slot)
    ensures
        slot_view(copy) == slot_view(*slot),
{
    match slot {
        Some(stack) => Some(stack.duplicate()),
        None => None,
    }
}

/// The set of products an inventory accepts, kept in a hash set.
#[verifier::external_body]
pub struct ProductFilter {
    products: bevy::utils::HashSet<Item>,
}

/// The items, by value, that a product filter holds.
pub uninterp spec fn filter_products(filter: ProductFilter) -> Set<ItemV>;

impl ProductFilter {
    /// `HashSet::default` (hashbrown, through bevy's alias): a set that holds nothing.
    #[verifier::external_body]
    fn empty() -> (filter: ProductFilter)
        ensures
            filter_products(filter) == Set::<ItemV>::empty(),
    {
        ProductFilter { products: bevy::utils::HashSet::default() }
    }

    /// `HashSet::insert` (hashbrown): afterwards the set holds the item too, and nothing
    /// else changes. Items are equal when their names and colours are.
    #[verifier::external_body]
    fn insert_product(&mut self, item: Item)
        ensures
            filter_products(*final(self)) == filter_products(*old(self)).insert(item@),
    {
        self.products.insert(item);
    }

    /// `HashSet::contains` (hashbrown): whether the set holds an item equal to `item`.
    #[verifier::external_body]
    fn contains_product(&self, item: &Item) -> (found: bool)
        ensures
            found == filter_products(*self).contains(item@),
    {
        self.products.contains(item)
    }

    /// A filter that accepts exactly the listed items.
    pub fn from_items(items: &[Item]) -> (filter: ProductFilter)
        ensures
            forall|v: ItemV| filter_products(filter).contains(v) <==> exists|k: int| 0 <= k < items@.len() && #[trigger] items@[k]@ == v,
    {
        let mut filter = ProductFilter::empty();
        let mut i: usize = 0;
        while i < items.len()
            invariant
                i <= items.len(),
                forall|v: ItemV| filter_products(filter).contains(v) <==> exists|k: int| 0 <= k < i && #[trigger] items@[k]@ == v,
            decreases items.len() - i,
        {
            filter.insert_product(items[i].duplicate());
            proof {
                assert forall|v: ItemV| filter_products(filter).contains(v) <==> exists|k: int| 0 <= k < i + 1 && #[trigger] items@[k]@ == v by {
                    if v == items@[i as int]@ {
                    }
                    if exists|k: int| 0 <= k < i + 1 && #[trigger] items@[k]@ == v {
                        let k = choose|k: int| 0 <= k < i + 1 && #[trigger] items@[k]@ == v;
                        if k < i {
                        }
                    }
                }
            }
            i = i + 1;
        }
        filter
    }

    /// Whether the filter accepts the item.
    pub fn allows(&self, item: &Item) -> (allowed: bool)
        ensures
            allowed == filter_products(*self).contains(item@),
    {
        self.contains_product(item)
    }
}

/// Every requested item is accepted: there is no filter, or the filter holds it.
pub open spec fn accepts_all(filter: Option<ProductFilter>, items: Seq<(ItemV, u32)>) -> bool {
    match filter {
        None => true,
        Some(f) => forall|k: int| 0 <= k < items.len() ==> filter_products(f).contains(#[trigger] items[k].0),
    }
}

/// Inventory: a fixed row of slots, with an optional set of the products it accepts.
pub struct Inventory {
    pub slots: Vec<Slot>,
    pub allowed_products: Option<ProductFilter>,
}

impl View for Inventory {
    type V = Seq<SlotV>;

    open spec fn view(&self) -> Seq<SlotV> {
        slots_view(self.slots@)
    }
}

impl Inventory {
    /// Return true if the inventory holds at least the given amount of each listed item.
    pub fn has_items(&self, items: &[(Item, u32)]) -> (has: bool)
        ensures
            has == holds_all(self@, items_view(items@)),
    {
        let ghost slots = self@;
        let ghost wanted = items_view(items@);
        let mut i: usize = 0;
        while i < items.len()
            invariant
                i <= items.len(),
                slots == self@,
                wanted == items_view(items@),
                wanted.len() == items@.len(),
                forall|k: int| 0 <= k < i ==> count(slots, #[trigger] wanted[k].0) >= wanted[k].1,
            decreases items.len() - i,
        {
            let resource = &items[i].0;
            let mut amount: u32 = items[i].1;
            let ghost item = wanted[i as int].0;
            let ghost goal = wanted[i as int].1 as int;
            assert(resource@ == item);
            let mut j: usize = 0;
            while j < self.slots.len() && amount != 0
                invariant
                    j <= self.slots.len(),
                    slots == self@,
                    slots.len() == self.slots@.len(),
                    resource@ == item,
                    amount as int == if count(slots.take(j as int), item) >= goal {
                        0
                    } else {
                        goal - count(slots.take(j as int), item)
                    },
                decreases self.slots.len() - j,
            {
                proof {
                    lemma_count_take_next(slots, item, j as int);
                }
                match &self.slots[j] {
                    Some(stack) => {
                        if stack.resource.same_as(resource) {
                            if stack.amount >= amount {
                                amount = 0;
                            } else {
                                amount = amount - stack.amount;
                            }
                        }
                    },
                    None => {},
                }
                j = j + 1;
            }
            proof {
                lemma_count_take_le(slots, item, j as int);
                if j == self.slots.len() {
                    assert(slots.take(j as int) =~= slots);
                }
            }
            if amount > 0 {
                return false;
            }
            i = i + 1;
        }
        true
    }

    /// How many of `resource` the slots hold altogether.
    fn held(&self, resource: &Item) -> (total: u128)
        ensures
            total == count(self@, resource@),
    {
        let ghost item = resource@;
        let mut total: u128 = 0;
        let mut j: usize = 0;
        while j < self.slots.len()
            invariant
                j <= self.slots@.len(),
                self@.len() == self.slots@.len(),
                item == resource@,
                total == count(self@.take(j as int), item),
                total <= j * 0x1_0000_0000,
            decreases self.slots.len() - j,
        {
            proof {
                lemma_count_take_next(self@, item, j as int);
            }
            match &self.slots[j] {
                Some(stack) => {
                    if stack.resource.same_as(resource) {
                        total = total + stack.amount as u128;
                    }
                },
                None => {},
            }
            j = j + 1;
        }
        assert(self@.take(j as int) =~= self@);
        total
    }

    /// Removes all items atomically, returning true on success: when the inventory does
    /// not hold, for some item, the total of that item asked for over the whole list,
    /// nothing changes and the result is false.
    pub fn remove_items(&mut self, items: &[(Item, u32)]) -> (removed: bool)
        ensures
            removed == holds_totals(old(self)@, items_view(items@)),
            removed ==> final(self)@ == take_out_all(old(self)@, items_view(items@)),
            !removed ==> final(self)@ == old(self)@,
            final(self).allowed_products == old(self).allowed_products,
    {
        let ghost wanted = items_view(items@);
        let mut k: usize = 0;
        while k < items.len()
            invariant
                k <= items@.len(),
                wanted == items_view(items@),
                wanted.len() == items@.len(),
                self@ == old(self)@,
                self.allowed_products == old(self).allowed_products,
                forall|q: int| 0 <= q < k ==> count(self@, #[trigger] wanted[q].0) >= count_requests(wanted, wanted[q].0),
            decreases items.len() - k,
        {
            let resource = &items[k].0;
            assert(resource@ == wanted[k as int].0);
            if self.held(resource) < requested(items, resource) {
                return false;
            }
            k = k + 1;
        }
        let ghost goal = take_out_all(self@, wanted);
        assert(wanted.skip(0) =~= wanted);
        let mut i: usize = 0;
        while i < items.len()
            invariant
                i <= items.len(),
                wanted == items_view(items@),
                wanted.len() == items@.len(),
                goal == take_out_all(self@, wanted.skip(i as int)),
                self.allowed_products == old(self).allowed_products,
            decreases items.len() - i,
        {
            let resource = &items[i].0;
            let mut amount: u32 = items[i].1;
            let ghost item = wanted[i as int].0;
            let ghost start = self@;
            let ghost target = take_out(start, item, amount as nat);
            proof {
                assert(wanted.skip(i as int).drop_first() =~= wanted.skip(i + 1));
                assert(wanted.skip(i as int)[0] == wanted[i as int]);
            }
            assert(start.take(0) + start.skip(0) =~= start);
            let mut j: usize = 0;
            while j < self.slots.len() && amount != 0
                invariant
                    j <= self.slots.len(),
                    self@.len() == start.len(),
                    resource@ == item,
                    target == self@.take(j as int) + take_out(self@.skip(j as int), item, amount as nat),
                    self.allowed_products == old(self).allowed_products,
                decreases self.slots.len() - j,
            {
                let ghost before = self@;
                let slot = self.slots[j].take();
                proof {
                    assert(before.skip(j as int).drop_first() =~= before.skip(j + 1));
                    assert(before.skip(j as int)[0] == before[j as int]);
                    assert(before[j as int] == slot_view(slot));
                }
                let new_slot = match slot {
                    Some(mut stack) => {
                        if stack.resource.same_as(resource) {
                            if stack.amount >= amount {
                                stack.amount = stack.amount - amount;
                                amount = 0;
                            } else {
                                amount = amount - stack.amount;
                                stack.amount = 0;
                            }
                            if stack.amount == 0 {
                                None
                            } else {
                                Some(stack)
                            }
                        } else {
                            Some(stack)
                        }
                    },
                    None => None,
                };
                self.slots.set(j, new_slot);
                proof {
                    assert(self@.take(j + 1) =~= before.take(j as int).push(slot_view(new_slot)));
                    assert(self@.skip(j + 1) =~= before.skip(j + 1));
                }
                j = j + 1;
            }
            proof {
                if j == self.slots.len() {
                    assert(self@.skip(j as int) =~= Seq::<SlotV>::empty());
                }
                assert(self@ =~= self@.take(j as int) + self@.skip(j as int));
            }
            i = i + 1;
        }
        assert(wanted.skip(items.len() as int) =~= Seq::<(ItemV, u32)>::empty());
        true
    }

    /// Tops up the existing stacks of `resource` with `amount`; see `fill_stacks`.
    fn fill_existing(&mut self, resource: &Item, amount: u32) -> (left: u32)
        requires
            fill_stacks(old(self)@, resource@, amount as nat) is Some,
        ensures
            fill_stacks(old(self)@, resource@, amount as nat) == Some((final(self)@, left as nat)),
            final(self).allowed_products == old(self).allowed_products,
    {
        let ghost item = resource@;
        let ghost start = self@;
        let ghost filled = fill_stacks(start, item, amount as nat);
        let mut remaining = amount;
        proof {
            assert(start.take(0) =~= Seq::<SlotV>::empty());
            assert(start.skip(0) =~= start);
            assert(Seq::<SlotV>::empty() + start =~= start);
        }
        let mut j: usize = 0;
        let mut stop = false;
        while j < self.slots.len() && !stop
            invariant
                j <= self.slots.len(),
                self@.len() == start.len(),
                resource@ == item,
                filled is Some,
                filled == fill_stacks(old(self)@, item, amount as nat),
                self.allowed_products == old(self).allowed_products,
                !stop ==> filled == after_prefix(self@.take(j as int), fill_stacks(self@.skip(j as int), item, remaining as nat)),
                stop ==> filled == Some((self@, 0nat)) && remaining == 0,
            decreases self.slots.len() - j,
        {
            let ghost before = self@;
            let slot = self.slots[j].take();
            proof {
                assert(before.skip(j as int).drop_first() =~= before.skip(j + 1));
                assert(before.skip(j as int)[0] == before[j as int]);
                assert(before[j as int] == slot_view(slot));
            }
            let new_slot = match slot {
                Some(mut stack) => {
                    if stack.resource.same_as(resource) {
                        let space = MAX_STACK_SIZE - stack.amount;
                        if space >= remaining {
                            stack.amount = stack.amount + remaining;
                            remaining = 0;
                        } else {
                            stack.amount = MAX_STACK_SIZE;
                            remaining = remaining - space;
                        }
                    }
                    if remaining == 0 {
                        stop = true;
                    }
                    Some(stack)
                },
                None => None,
            };
            self.slots.set(j, new_slot);
            proof {
                assert(self@.take(j + 1) =~= before.take(j as int).push(slot_view(new_slot)));
                assert(self@.skip(j + 1) =~= before.skip(j + 1));
                assert(self@ =~= self@.take(j + 1) + self@.skip(j + 1));
                assert(before.take(j as int) + (seq![slot_view(new_slot)] + before.skip(j + 1)) =~= self@);
                assert(before.take(j as int) + seq![slot_view(new_slot)] =~= self@.take(j + 1));
                assert forall|x: Seq<SlotV>| #![auto]
                    before.take(j as int) + (seq![slot_view(new_slot)] + x) =~= self@.take(j + 1) + x by {}
            }
            j = j + 1;
        }
        proof {
            if !stop {
                assert(self@.skip(j as int) =~= Seq::<SlotV>::empty());
                assert(self@.take(j as int) + Seq::<SlotV>::empty() =~= self@);
                assert(fill_stacks(self@.skip(j as int), item, remaining as nat) == Some((Seq::<SlotV>::empty(), remaining as nat)));
            }
        }
        remaining
    }

    /// Puts `amount` of `resource` into the empty slots; see `fill_empty`.
    fn fill_empty_slots(&mut self, resource: &Item, amount: u32) -> (left: u32)
        ensures
            fill_empty(old(self)@, resource@, amount as nat) == (final(self)@, left as nat),
            final(self).allowed_products == old(self).allowed_products,
    {
        let ghost item = resource@;
        let ghost filled = fill_empty(self@, item, amount as nat);
        let mut remaining = amount;
        proof {
            assert(self@.take(0) + self@.skip(0) =~= self@);
            assert(self@.skip(0) =~= self@);
            assert(self@.take(0) =~= Seq::<SlotV>::empty());
        }
        let mut j: usize = 0;
        while j < self.slots.len() && remaining > 0
            invariant
                j <= self.slots.len(),
                self@.len() == old(self)@.len(),
                resource@ == item,
                filled == fill_empty(old(self)@, item, amount as nat),
                self.allowed_products == old(self).allowed_products,
                filled == (
                    self@.take(j as int) + fill_empty(self@.skip(j as int), item, remaining as nat).0,
                    fill_empty(self@.skip(j as int), item, remaining as nat).1,
                ),
            decreases self.slots.len() - j,
        {
            let ghost before = self@;
            proof {
                assert(before.skip(j as int).drop_first() =~= before.skip(j + 1));
                assert(before.skip(j as int)[0] == before[j as int]);
            }
            if self.slots[j].is_none() {
                let put: u32 = if remaining > MAX_STACK_SIZE { MAX_STACK_SIZE } else { remaining };
                self.slots.set(j, Some(Stack { resource: resource.duplicate(), amount: put }));
                remaining = remaining - put;
                proof {
                    assert(self@ =~= before.update(j as int, Some((item, put))));
                    assert(self@.skip(j + 1) =~= before.skip(j + 1));
                    assert forall|x: Seq<SlotV>| #![auto]
                        before.take(j as int) + (seq![Some((item, put))] + x) =~= self@.take(j + 1) + x by {}
                }
            } else {
                proof {
                    assert forall|x: Seq<SlotV>| #![auto]
                        before.take(j as int) + (seq![before[j as int]] + x) =~= before.take(j + 1) + x by {}
                }
            }
            j = j + 1;
        }
        proof {
            if remaining > 0 {
                assert(self@.skip(j as int) =~= Seq::<SlotV>::empty());
            }
            assert(self@.take(j as int) + self@.skip(j as int) =~= self@);
        }
        remaining
    }

    /// Add the items to the inventory, returning the remainder; see `add_all`.
    #[verifier::rlimit(50)]
    pub fn add_items(&mut self, items: &[(Item, u32)]) -> (remainder: Vec<(Item, u32)>)
        requires
            add_all(old(self)@, items_view(items@), seq![]) is Some,
        ensures
            final(self)@ == add_all(old(self)@, items_view(items@), seq![]).unwrap().0,
            items_view(remainder@) == add_all(old(self)@, items_view(items@), seq![]).unwrap().1,
            remainder@.len() > 0 ==> forall|k: int| 0 <= k < final(self)@.len() ==> (#[trigger] final(self)@[k]) is Some,
            final(self).allowed_products == old(self).allowed_products,
    {
        let ghost wanted = items_view(items@);
        proof {
            law_remainder_only_when_full(self@, wanted, seq![]);
        }
        let ghost goal = add_all(self@, wanted, seq![]);
        let mut remainder: Vec<(Item, u32)> = Vec::new();
        assert(wanted.skip(0) =~= wanted);
        assert(items_view(remainder@) =~= seq![]);
        let mut i: usize = 0;
        while i < items.len()
            invariant
                i <= items.len(),
                wanted == items_view(items@),
                wanted.len() == items@.len(),
                goal is Some,
                goal == add_all(old(self)@, wanted, seq![]),
                goal == add_all(self@, wanted.skip(i as int), items_view(remainder@)),
                self.allowed_products == old(self).allowed_products,
            decreases items.len() - i,
        {
            let resource = &items[i].0;
            let amount: u32 = items[i].1;
            let ghost item = wanted[i as int].0;
            let ghost start = self@;
            let ghost step = add_one(start, item, amount as nat);
            proof {
                assert(wanted.skip(i as int).drop_first() =~= wanted.skip(i + 1));
                assert(wanted.skip(i as int)[0] == wanted[i as int]);
                assert(step is Some);
            }
            let left = self.fill_existing(resource, amount);
            if left == 0 {
                assert(step == Some((self@, None::<nat>)));
            } else {
                let ghost after = self@;
                assert(fill_stacks(start, item, amount as nat) == Some((after, left as nat)));
                let back = self.fill_empty_slots(resource, left);
                if back == 0 {
                    assert(step == Some((self@, None::<nat>)));
                } else {
                    assert(step == Some((self@, Some(back as nat))));
                    let ghost old_rem = items_view(remainder@);
                    remainder.push((resource.duplicate(), back));
                    assert(items_view(remainder@) =~= old_rem.push((item, back)));
                }
            }
            i = i + 1;
        }
        assert(wanted.skip(items.len() as int) =~= Seq::<(ItemV, u32)>::empty());
        remainder
    }

    /// Add `amount` of `resource`, returning the remainder.
    pub fn add_item(&mut self, resource: Item, amount: u32) -> (remainder: Vec<(Item, u32)>)
        requires
            add_all(old(self)@, seq![(resource@, amount)], seq![]) is Some,
        ensures
            final(self)@ == add_all(old(self)@, seq![(resource@, amount)], seq![]).unwrap().0,
            items_view(remainder@) == add_all(old(self)@, seq![(resource@, amount)], seq![]).unwrap().1,
            remainder@.len() > 0 ==> forall|k: int| 0 <= k < final(self)@.len() ==> (#[trigger] final(self)@[k]) is Some,
            final(self).allowed_products == old(self).allowed_products,
    {
        let items = [(resource, amount)];
        assert(items_view(items@) =~= seq![(resource@, amount)]);
        self.add_items(&items)
    }

    /// An inventory of `size` empty slots that accepts every product.
    pub fn new(size: u32) -> (inventory: Inventory)
        ensures
            inventory@.len() == size,
            forall|k: int| 0 <= k < size ==> inventory@[k] is None,
            inventory.allowed_products is None,
    {
        Inventory { slots: empty_slots(size), allowed_products: None }
    }

    /// An inventory of `size` empty slots that accepts only the given products.
    pub fn new_with_filter(size: u32, allowed_products: ProductFilter) -> (inventory: Inventory)
        ensures
            inventory@.len() == size,
            forall|k: int| 0 <= k < size ==> inventory@[k] is None,
            inventory.allowed_products == Some(allowed_products),
    {
        Inventory { slots: empty_slots(size), allowed_products: Some(allowed_products) }
    }

    /// Return true if the inventory has enough space for the items, and accepts them all:
    /// adding them (see `add_all`) would hand nothing back.
    pub fn can_add(&self, items: &[(Item, u32)]) -> (fits: bool)
        requires
            accepts_all(self.allowed_products, items_view(items@)) ==> add_all(self@, items_view(items@), seq![]) is Some,
        ensures
            fits == (accepts_all(self.allowed_products, items_view(items@)) && all_placed(self@, items_view(items@))),
    {
        let ghost wanted = items_view(items@);
        match &self.allowed_products {
            Some(allowed) => {
                let mut i: usize = 0;
                while i < items.len()
                    invariant
                        i <= items.len(),
                        wanted == items_view(items@),
                        wanted.len() == items@.len(),
                        self.allowed_products == Some(*allowed),
                        forall|k: int| 0 <= k < i ==> filter_products(*allowed).contains(#[trigger] wanted[k].0),
                    decreases items.len() - i,
                {
                    if !allowed.allows(&items[i].0) {
                        assert(!filter_products(*allowed).contains(wanted[i as int].0));
                        return false;
                    }
                    i = i + 1;
                }
            },
            None => {},
        }
        let mut slots: Vec<Slot> = Vec::new();
        let mut c: usize = 0;
        while c < self.slots.len()
            invariant
                c <= self.slots.len(),
                slots_view(slots@) =~= self@.take(c as int),
            decreases self.slots.len() - c,
        {
            slots.push(duplicate_slot(&self.slots[c]));
            assert(self@.take(c + 1) =~= self@.take(c as int).push(self@[c as int]));
            c = c + 1;
        }
        assert(self@.take(c as int) =~= self@);
        let mut trial = Inventory { slots, allowed_products: None };
        let remainder = trial.add_items(items);
        assert(items_view(remainder@).len() == remainder@.len());
        remainder.len() == 0
    }

    /// Puts a stack into the inventory and returns what did not fit; see `place_stack`.
    pub fn add_stack(&mut self, stack: Stack) -> (leftover: Option<Stack>)
        requires
            place_stack(old(self)@, stack@) is Some,
        ensures
            final(self)@ == place_stack(old(self)@, stack@).unwrap().0,
            slot_view(leftover) == place_stack(old(self)@, stack@).unwrap().1,
            final(self).allowed_products == old(self).allowed_products,
    {
        let ghost goal = place_stack(self@, stack@);
        let ghost incoming = stack@;
        let mut carried = stack;
        let ghost start = self@;
        proof {
            assert(start.take(0) + start.skip(0) =~= start);
        }
        let mut j: usize = 0;
        while j < self.slots.len()
            invariant
                j <= self.slots.len(),
                self@.len() == start.len(),
                goal == place_stack(old(self)@, incoming),
                incoming == stack@,
                goal is Some,
                goal == prefix_all(self@.take(j as int), place_stack(self@.skip(j as int), carried@)),
                self.allowed_products == old(self).allowed_products,
            decreases self.slots.len() - j,
        {
            let ghost before = self@;
            let slot = self.slots[j].take();
            proof {
                assert(before.skip(j as int).drop_first() =~= before.skip(j + 1));
                assert(before.skip(j as int)[0] == before[j as int]);
                assert(before[j as int] == slot_view(slot));
                lemma_prefix_all_step(before.take(j as int), before[j as int], before.skip(j + 1), carried@);
            }
            match slot {
                Some(mut existing) => {
                    if existing.resource.same_as(&carried.resource) {
                        let overflow = existing.add(carried.amount);
                        self.slots.set(j, Some(existing));
                        proof {
                            assert(self@ =~= before.take(j as int) + (seq![Some(existing@)] + before.skip(j + 1)));
                            assert(self@.take(j + 1) =~= before.take(j as int) + seq![Some(existing@)]);
                            assert(self@.skip(j + 1) =~= before.skip(j + 1));
                        }
                        if overflow == 0 {
                            assert(goal == Some((self@, None::<StackV>)));
                            return None;
                        } else {
                            carried.amount = overflow;
                        }
                    } else {
                        self.slots.set(j, Some(existing));
                        proof {
                            assert(self@.take(j + 1) =~= before.take(j as int) + seq![Some(existing@)]);
                            assert(self@.skip(j + 1) =~= before.skip(j + 1));
                        }
                    }
                },
                None => {
                    self.slots.set(j, Some(carried));
                    proof {
                        assert(self@ =~= before.take(j as int) + (seq![Some(carried@)] + before.skip(j + 1)));
                        assert(goal == Some((self@, None::<StackV>)));
                    }
                    return None;
                },
            }
            proof {
                assert(self@.take(j + 1) + self@.skip(j + 1) =~= self@);
            }
            j = j + 1;
        }
        proof {
            assert(self@.skip(j as int) =~= Seq::<SlotV>::empty());
            assert(self@.take(j as int) =~= self@);
        }
        Some(carried)
    }

    /// Takes a stack out of the inventory; see `take_from`.
    pub fn take_stack(&mut self, max_size: u32) -> (taken: Option<Stack>)
        requires
            take_from(old(self)@, max_size, None) is Some,
        ensures
            final(self)@ == take_from(old(self)@, max_size, None).unwrap().0,
            slot_view(taken) == take_from(old(self)@, max_size, None).unwrap().1,
            final(self).allowed_products == old(self).allowed_products,
    {
        let ghost goal = take_from(self@, max_size, None);
        let mut return_stack: Option<Stack> = None;
        let ghost start = self@;
        proof {
            assert(start.take(0) + start.skip(0) =~= start);
        }
        let mut j: usize = 0;
        while j < self.slots.len()
            invariant
                j <= self.slots.len(),
                self@.len() == start.len(),
                goal == take_from(old(self)@, max_size, None),
                goal is Some,
                goal == prefix_all(self@.take(j as int), take_from(self@.skip(j as int), max_size, slot_view(return_stack))),
                self.allowed_products == old(self).allowed_products,
            decreases self.slots.len() - j,
        {
            let ghost before = self@;
            let ghost acc = slot_view(return_stack);
            let slot = self.slots[j].take();
            proof {
                assert(before.skip(j as int).drop_first() =~= before.skip(j + 1));
                assert(before.skip(j as int)[0] == before[j as int]);
                assert(before[j as int] == slot_view(slot));
                lemma_prefix_all_take_step(before.take(j as int), before[j as int], before.skip(j + 1), max_size, acc);
            }
            let new_slot = match slot {
                Some(mut existing) => {
                    match return_stack {
                        Some(mut stack) => {
                            let same = stack.resource.same_as(&existing.resource);
                            if same {
                                let taking_n = if max_size < existing.amount { max_size } else { existing.amount };
                                stack.amount = stack.amount + taking_n;
                                existing.amount = existing.amount - taking_n;
                            }
                            return_stack = Some(stack);
                            if same && existing.amount == 0 {
                                None
                            } else {
                                Some(existing)
                            }
                        },
                        None => {
                            let taking_n = if existing.amount < max_size { existing.amount } else { max_size };
                            return_stack = Some(Stack::new(existing.resource.duplicate(), taking_n));
                            existing.amount = existing.amount - taking_n;
                            if existing.amount == 0 {
                                None
                            } else {
                                Some(existing)
                            }
                        },
                    }
                },
                None => None,
            };
            self.slots.set(j, new_slot);
            proof {
                assert(self@.take(j + 1) =~= before.take(j as int) + seq![slot_view(new_slot)]);
                assert(self@.skip(j + 1) =~= before.skip(j + 1));
            }
            j = j + 1;
        }
        proof {
            assert(self@.skip(j as int) =~= Seq::<SlotV>::empty());
            assert(self@.take(j as int) =~= self@);
        }
        return_stack
    }
}

/// `size` empty slots.
fn empty_slots(size: u32) -> (slots: Vec<Slot>)
    ensures
        slots@.len() == size,
        slots_view(slots@).len() == size,
        forall|k: int| 0 <= k < size ==> slots_view(slots@)[k] is None,
{
    let mut slots: Vec<Slot> = Vec::new();
    let mut k: u32 = 0;
    while k < size
        invariant
            k <= size,
            slots@.len() == k,
            forall|m: int| 0 <= m < k ==> (#[trigger] slots@[m]) is None,
        decreases size - k,
    {
        slots.push(None);
        k = k + 1;
    }
    slots
}

/// Puts a prefix in front of the slots of a result that carries a leftover stack.
pub open spec fn prefix_all(prefix: Seq<SlotV>, result: Option<(Seq<SlotV>, Option<StackV>)>) -> Option<(Seq<SlotV>, Option<StackV>)> {
    match result {
        Some((slots, left)) => Some((prefix + slots, left)),
        None => None,
    }
}

proof fn lemma_prefix_all_step(prefix: Seq<SlotV>, head: SlotV, rest: Seq<SlotV>, stack: StackV)
    ensures
        forall|r: Option<(Seq<SlotV>, Option<StackV>)>| #![auto]
            prefix_all(prefix, prefix_stack(head, r)) == prefix_all(prefix + seq![head], r),
{
    assert forall|r: Option<(Seq<SlotV>, Option<StackV>)>| #![auto]
        prefix_all(prefix, prefix_stack(head, r)) == prefix_all(prefix + seq![head], r) by {
        match r {
            Some((s, l)) => {
                assert(prefix + (seq![head] + s) =~= (prefix + seq![head]) + s);
            },
            None => {},
        }
    }
}

proof fn lemma_prefix_all_take_step(prefix: Seq<SlotV>, head: SlotV, rest: Seq<SlotV>, max_size: u32, acc: Option<StackV>)
    ensures
        forall|r: Option<(Seq<SlotV>, Option<StackV>)>| #![auto]
            prefix_all(prefix, prefix_stack(head, r)) == prefix_all(prefix + seq![head], r),
{
    lemma_prefix_all_step(prefix, head, rest, (head.unwrap().0, 0));
}


/// Moves the source stack onto the target stack; see `transferred`.
pub fn transfer_between_stacks(source_stack: &mut Stack, target_stack: &mut Stack)
    requires
        transfer_fits(old(source_stack)@, old(target_stack)@),
    ensures
        (final(source_stack)@, final(target_stack)@) == transferred(old(source_stack)@, old(target_stack)@),
{
    if source_stack.same_as(target_stack) {
        return;
    }
    if target_stack.resource.same_as(&source_stack.resource) {
        let remainder = target_stack.add(source_stack.amount);
        source_stack.amount = remainder;
    } else {
        std::mem::swap(source_stack, target_stack);
    }
}

/// Moves the stack of the source slot onto the target slot; see `slots_transferred`.
pub fn transfer_between_slots(source_slot: &mut Slot, target_slot: &mut Slot)
    requires
        slot_view(*old(source_slot)) is Some && slot_view(*old(target_slot)) is Some ==> transfer_fits(
            slot_view(*old(source_slot)).unwrap(),
            slot_view(*old(target_slot)).unwrap(),
        ),
    ensures
        (slot_view(*final(source_slot)), slot_view(*final(target_slot))) == slots_transferred(
            slot_view(*old(source_slot)),
            slot_view(*old(target_slot)),
        ),
{
    match source_slot.take() {
        Some(mut source_stack) => {
            match target_slot.take() {
                Some(mut target_stack) => {
                    transfer_between_stacks(&mut source_stack, &mut target_stack);
                    *target_slot = Some(target_stack);
                    if source_stack.amount == 0 {
                        *source_slot = None;
                    } else {
                        *source_slot = Some(source_stack);
                    }
                },
                None => {
                    *target_slot = Some(source_stack);
                },
            }
        },
        None => {},
    }
}

/// Drops the stack of slot `source_slot` onto slot `target_slot`; see `dropped`.
pub fn drop_within_inventory(inventory: &mut Inventory, source_slot: usize, target_slot: usize)
    requires
        drop_allowed(old(inventory)@, source_slot as int, target_slot as int),
    ensures
        final(inventory)@ == dropped(old(inventory)@, source_slot as int, target_slot as int),
        final(inventory).allowed_products == old(inventory).allowed_products,
{
    let ghost start = inventory@;
    if source_slot >= inventory.slots.len() {
        return;
    }
    let source_opt = duplicate_slot(&inventory.slots[source_slot]);
    match source_opt {
        Some(mut source_stack) => {
            let target_opt = duplicate_slot(&inventory.slots[target_slot]);
            match target_opt {
                Some(mut target_stack) => {
                    transfer_between_stacks(&mut source_stack, &mut target_stack);
                    inventory.slots.set(target_slot, Some(target_stack));
                    if source_stack.amount > 0 {
                        inventory.slots.set(source_slot, Some(source_stack));
                    } else {
                        inventory.slots.set(source_slot, None);
                    }
                },
                None => {
                    inventory.slots.set(target_slot, Some(source_stack.duplicate()));
                    inventory.slots.set(source_slot, None);
                },
            }
            assert(inventory@ =~= dropped(start, source_slot as int, target_slot as int));
        },
        None => {},
    }
}


/// A slot in front of a sequence counts that slot plus the sequence.
pub proof fn lemma_count_prepend(head: SlotV, rest: Seq<SlotV>, item: ItemV)
    ensures
        count(seq![head] + rest, item) == amount_in(head, item) + count(rest, item),
{
    let single = seq![head];
    assert(single.drop_last() =~= Seq::<SlotV>::empty());
    assert(count(Seq::<SlotV>::empty(), item) == 0);
    assert(count(single, item) == amount_in(head, item));
    lemma_count_concat(single, rest, item);
}

/// Replacing one slot changes the count by the difference of the two slots.
pub proof fn lemma_count_update(slots: Seq<SlotV>, k: int, slot: SlotV, item: ItemV)
    requires
        0 <= k < slots.len(),
    ensures
        count(slots.update(k, slot), item) + amount_in(slots[k], item) == count(slots, item) + amount_in(slot, item),
{
    let updated = slots.update(k, slot);
    assert(slots =~= slots.take(k) + (seq![slots[k]] + slots.skip(k + 1)));
    assert(updated =~= slots.take(k) + (seq![slot] + slots.skip(k + 1)));
    lemma_count_concat(slots.take(k), seq![slots[k]] + slots.skip(k + 1), item);
    lemma_count_concat(slots.take(k), seq![slot] + slots.skip(k + 1), item);
    lemma_count_prepend(slots[k], slots.skip(k + 1), item);
    lemma_count_prepend(slot, slots.skip(k + 1), item);
}

/// Taking out a request the slots can cover lowers the count of its item by exactly the
/// amount asked, and leaves every other item as it was; no stack grows.
pub proof fn lemma_take_out_count(slots: Seq<SlotV>, item: ItemV, amount: nat, other: ItemV)
    requires
        count(slots, item) >= amount,
    ensures
        count(take_out(slots, item, amount), item) == count(slots, item) - amount,
        other != item ==> count(take_out(slots, item, amount), other) == count(slots, other),
        take_out(slots, item, amount).len() == slots.len(),
        stacks_within_limit(slots) ==> stacks_within_limit(take_out(slots, item, amount)),
    decreases slots.len(),
{
    if slots.len() == 0 || amount == 0 {
    } else {
        let rest = slots.drop_first();
        let result = take_out(slots, item, amount);
        lemma_count_cons(slots, item);
        lemma_count_cons(slots, other);
        match slots[0] {
            Some(stack) => {
                if stack.0 == item {
                    if stack.1 >= amount {
                        let left = (stack.1 - amount) as u32;
                        let head: SlotV = if left == 0 { None } else { Some((item, left)) };
                        lemma_count_prepend(head, rest, item);
                        lemma_count_prepend(head, rest, other);
                        assert(result == seq![head] + rest);
                        if stacks_within_limit(slots) {
                            assert forall|k: int| 0 <= k < result.len() && (#[trigger] result[k]) is Some implies result[k].unwrap().1 <= MAX_STACK_SIZE by {
                                if k > 0 {
                                    assert(result[k] == slots[k]);
                                } else {
                                    assert(slots[0] is Some);
                                }
                            }
                        }
                    } else {
                        lemma_take_out_count(rest, item, (amount - stack.1) as nat, other);
                        let tail = take_out(rest, item, (amount - stack.1) as nat);
                        lemma_count_prepend(None, tail, item);
                        lemma_count_prepend(None, tail, other);
                        assert(result == seq![None] + tail);
                        if stacks_within_limit(slots) {
                            assert(stacks_within_limit(rest)) by {
                                assert forall|k: int| 0 <= k < rest.len() && (#[trigger] rest[k]) is Some implies rest[k].unwrap().1 <= MAX_STACK_SIZE by {
                                    assert(rest[k] == slots[k + 1]);
                                }
                            }
                            assert forall|k: int| 0 <= k < result.len() && (#[trigger] result[k]) is Some implies result[k].unwrap().1 <= MAX_STACK_SIZE by {
                                assert(result[k] == tail[k - 1]);
                            }
                        }
                    }
                } else {
                    lemma_take_out_count(rest, item, amount, other);
                    let tail = take_out(rest, item, amount);
                    lemma_count_prepend(slots[0], tail, item);
                    lemma_count_prepend(slots[0], tail, other);
                    assert(result == seq![slots[0]] + tail);
                    if stacks_within_limit(slots) {
                        assert(stacks_within_limit(rest)) by {
                            assert forall|k: int| 0 <= k < rest.len() && (#[trigger] rest[k]) is Some implies rest[k].unwrap().1 <= MAX_STACK_SIZE by {
                                assert(rest[k] == slots[k + 1]);
                            }
                        }
                        assert forall|k: int| 0 <= k < result.len() && (#[trigger] result[k]) is Some implies result[k].unwrap().1 <= MAX_STACK_SIZE by {
                            if k > 0 {
                                assert(result[k] == tail[k - 1]);
                            }
                        }
                    }
                }
            },
            None => {
                lemma_take_out_count(rest, item, amount, other);
                let tail = take_out(rest, item, amount);
                lemma_count_prepend(None, tail, item);
                lemma_count_prepend(None, tail, other);
                assert(result == seq![None] + tail);
                if stacks_within_limit(slots) {
                    assert(stacks_within_limit(rest)) by {
                        assert forall|k: int| 0 <= k < rest.len() && (#[trigger] rest[k]) is Some implies rest[k].unwrap().1 <= MAX_STACK_SIZE by {
                            assert(rest[k] == slots[k + 1]);
                        }
                    }
                    assert forall|k: int| 0 <= k < result.len() && (#[trigger] result[k]) is Some implies result[k].unwrap().1 <= MAX_STACK_SIZE by {
                        if k > 0 {
                            assert(result[k] == tail[k - 1]);
                        }
                    }
                }
            },
        }
    }
}

/// Removing a single request that the inventory holds: the count of its item drops by
/// exactly the amount asked, every other item keeps its count.
pub proof fn law_remove_one_request(slots: Seq<SlotV>, item: ItemV, amount: u32, other: ItemV)
    requires
        holds_all(slots, seq![(item, amount)]),
    ensures
        count(take_out_all(slots, seq![(item, amount)]), item) == count(slots, item) - amount,
        other != item ==> count(take_out_all(slots, seq![(item, amount)]), other) == count(slots, other),
{
    let single = seq![(item, amount)];
    assert(single[0] == (item, amount));
    assert(count(slots, single[0].0) >= single[0].1);
    assert(single.drop_first() =~= Seq::<(ItemV, u32)>::empty());
    assert(take_out_all(slots, single) == take_out_all(take_out(slots, item, amount as nat), single.drop_first()));
    lemma_take_out_count(slots, item, amount as nat, other);
}


/// Removing a list of requests whose totals the inventory holds: the count of every item
/// drops by exactly the total asked of it, so an item not asked for keeps its count.
pub proof fn law_remove_conserves(slots: Seq<SlotV>, items: Seq<(ItemV, u32)>, item: ItemV)
    requires
        holds_totals(slots, items),
    ensures
        count(take_out_all(slots, items), item) + count_requests(items, item) == count(slots, item),
    decreases items.len(),
{
    if items.len() > 0 {
        let first = items[0];
        let rest = items.drop_first();
        let next = take_out(slots, first.0, first.1 as nat);
        lemma_count_requests_first(items, first.0);
        lemma_count_requests_first(items, item);
        assert(count(slots, items[0].0) >= count_requests(items, items[0].0));
        lemma_take_out_count(slots, first.0, first.1 as nat, item);
        assert forall|k: int| 0 <= k < rest.len() implies count(next, #[trigger] rest[k].0) >= count_requests(
            rest,
            rest[k].0,
        ) by {
            let j = rest[k].0;
            assert(rest[k] == items[k + 1]);
            assert(count(slots, items[k + 1].0) >= count_requests(items, items[k + 1].0));
            lemma_count_requests_first(items, j);
            lemma_take_out_count(slots, first.0, first.1 as nat, j);
        }
        law_remove_conserves(next, rest, item);
    }
}


proof fn lemma_within_limit_rest(slots: Seq<SlotV>)
    requires
        slots.len() > 0,
        stacks_within_limit(slots),
    ensures
        stacks_within_limit(slots.drop_first()),
{
    let rest = slots.drop_first();
    assert forall|k: int| 0 <= k < rest.len() && (#[trigger] rest[k]) is Some implies rest[k].unwrap().1 <= MAX_STACK_SIZE by {
        assert(rest[k] == slots[k + 1]);
    }
}

proof fn lemma_within_limit_prepend(head: SlotV, rest: Seq<SlotV>)
    requires
        stacks_within_limit(rest),
        head is Some ==> head.unwrap().1 <= MAX_STACK_SIZE,
    ensures
        stacks_within_limit(seq![head] + rest),
{
    let all = seq![head] + rest;
    assert forall|k: int| 0 <= k < all.len() && (#[trigger] all[k]) is Some implies all[k].unwrap().1 <= MAX_STACK_SIZE by {
        if k > 0 {
            assert(all[k] == rest[k - 1]);
        }
    }
}

/// Topping up stacks whose amounts are within the limit always succeeds, keeps them within
/// the limit, leaves empty slots empty, and only moves the requested amount into the slots.
pub proof fn lemma_fill_stacks(slots: Seq<SlotV>, item: ItemV, amount: nat, other: ItemV)
    requires
        stacks_within_limit(slots),
    ensures
        fill_stacks(slots, item, amount) is Some,
        fill_stacks(slots, item, amount).unwrap().0.len() == slots.len(),
        stacks_within_limit(fill_stacks(slots, item, amount).unwrap().0),
        fill_stacks(slots, item, amount).unwrap().1 <= amount,
        count(fill_stacks(slots, item, amount).unwrap().0, item) + fill_stacks(slots, item, amount).unwrap().1
            == count(slots, item) + amount,
        other != item ==> count(fill_stacks(slots, item, amount).unwrap().0, other) == count(slots, other),
        forall|k: int| 0 <= k < slots.len() ==> ((#[trigger] fill_stacks(slots, item, amount).unwrap().0[k]) is None <==> slots[k] is None),
    decreases slots.len(),
{
    if slots.len() == 0 {
    } else {
        let rest = slots.drop_first();
        lemma_within_limit_rest(slots);
        lemma_count_cons(slots, item);
        lemma_count_cons(slots, other);
        let result = fill_stacks(slots, item, amount).unwrap();
        match slots[0] {
            None => {
                lemma_fill_stacks(rest, item, amount, other);
                let (tail, left) = fill_stacks(rest, item, amount).unwrap();
                assert(result == (seq![None] + tail, left));
                lemma_count_prepend(None, tail, item);
                lemma_count_prepend(None, tail, other);
                lemma_within_limit_prepend(None, tail);
                assert forall|k: int| 0 <= k < slots.len() implies ((#[trigger] result.0[k]) is None <==> slots[k] is None) by {
                    if k > 0 {
                        assert(result.0[k] == tail[k - 1]);
                        assert(slots[k] == rest[k - 1]);
                    }
                }
            },
            Some(stack) => {
                let space = MAX_STACK_SIZE - stack.1;
                let head: SlotV = if stack.0 != item {
                    slots[0]
                } else if space >= amount {
                    Some((item, (stack.1 + amount) as u32))
                } else {
                    Some((item, MAX_STACK_SIZE))
                };
                let left: nat = if stack.0 != item {
                    amount
                } else if space >= amount {
                    0
                } else {
                    (amount - space) as nat
                };
                assert(amount_in(head, item) + left == amount_in(slots[0], item) + amount);
                assert(other != item ==> amount_in(head, other) == amount_in(slots[0], other));
                if left == 0 {
                    assert(result == (seq![head] + rest, 0nat));
                    lemma_count_prepend(head, rest, item);
                    lemma_count_prepend(head, rest, other);
                    lemma_within_limit_prepend(head, rest);
                    assert forall|k: int| 0 <= k < slots.len() implies ((#[trigger] result.0[k]) is None <==> slots[k] is None) by {
                        if k > 0 {
                            assert(result.0[k] == rest[k - 1]);
                            assert(slots[k] == rest[k - 1]);
                        }
                    }
                } else {
                    lemma_fill_stacks(rest, item, left, other);
                    let (tail, left2) = fill_stacks(rest, item, left).unwrap();
                    assert(result == (seq![head] + tail, left2));
                    lemma_count_prepend(head, tail, item);
                    lemma_count_prepend(head, tail, other);
                    lemma_within_limit_prepend(head, tail);
                    assert forall|k: int| 0 <= k < slots.len() implies ((#[trigger] result.0[k]) is None <==> slots[k] is None) by {
                        if k > 0 {
                            assert(result.0[k] == tail[k - 1]);
                            assert(slots[k] == rest[k - 1]);
                        }
                    }
                }
            },
        }
    }
}

/// Filling the empty slots keeps the slot count and every stack already there, keeps the
/// stack limit, moves exactly what it places from the amount into the slots, and leaves
/// something over only when no slot is empty any more.
proof fn lemma_fill_empty(slots: Seq<SlotV>, item: ItemV, amount: nat, other: ItemV)
    ensures
        fill_empty(slots, item, amount).0.len() == slots.len(),
        fill_empty(slots, item, amount).1 <= amount,
        count(fill_empty(slots, item, amount).0, item) + fill_empty(slots, item, amount).1 == count(slots, item) + amount,
        other != item ==> count(fill_empty(slots, item, amount).0, other) == count(slots, other),
        forall|k: int| 0 <= k < slots.len() && (#[trigger] slots[k]) is Some ==> fill_empty(slots, item, amount).0[k] == slots[k],
        stacks_within_limit(slots) ==> stacks_within_limit(fill_empty(slots, item, amount).0),
        fill_empty(slots, item, amount).1 > 0 ==> forall|k: int|
            0 <= k < slots.len() ==> (#[trigger] fill_empty(slots, item, amount).0[k]) is Some,
    decreases slots.len(),
{
    if slots.len() == 0 || amount == 0 {
    } else {
        let rest = slots.drop_first();
        let (result, left) = fill_empty(slots, item, amount);
        lemma_count_cons(slots, item);
        lemma_count_cons(slots, other);
        let head: SlotV;
        let inner: Seq<SlotV>;
        match slots[0] {
            None => {
                let put: u32 = if amount > MAX_STACK_SIZE { MAX_STACK_SIZE } else { amount as u32 };
                lemma_fill_empty(rest, item, (amount - put) as nat, other);
                head = Some((item, put));
                inner = fill_empty(rest, item, (amount - put) as nat).0;
            },
            Some(_) => {
                lemma_fill_empty(rest, item, amount, other);
                head = slots[0];
                inner = fill_empty(rest, item, amount).0;
            },
        }
        assert(result == seq![head] + inner);
        lemma_count_prepend(head, inner, item);
        lemma_count_prepend(head, inner, other);
        assert forall|k: int| 0 <= k < slots.len() && (#[trigger] slots[k]) is Some implies result[k] == slots[k] by {
            if k > 0 {
                assert(slots[k] == rest[k - 1]);
            }
        }
        if stacks_within_limit(slots) {
            lemma_within_limit_rest(slots);
            lemma_within_limit_prepend(head, inner);
        }
        if left > 0 {
            assert forall|k: int| 0 <= k < slots.len() implies (#[trigger] result[k]) is Some by {
                if k > 0 {
                    assert(result[k] == inner[k - 1]);
                }
            }
        }
    }
}

/// One request on stacks within the limit: it succeeds, keeps the stacks within the limit,
/// and what it puts into the slots plus what it hands back is the request.
proof fn lemma_add_one(slots: Seq<SlotV>, item: ItemV, amount: nat, other: ItemV)
    requires
        stacks_within_limit(slots),
    ensures
        add_one(slots, item, amount) is Some,
        stacks_within_limit(add_one(slots, item, amount).unwrap().0),
        add_one(slots, item, amount).unwrap().0.len() == slots.len(),
        add_one(slots, item, amount).unwrap().1 matches Some(left) ==> 0 < left <= amount,
        count(add_one(slots, item, amount).unwrap().0, item)
            + (match add_one(slots, item, amount).unwrap().1 { Some(left) => left, None => 0 })
            == count(slots, item) + amount,
        other != item ==> count(add_one(slots, item, amount).unwrap().0, other) == count(slots, other),
{
    lemma_fill_stacks(slots, item, amount, other);
    lemma_fill_stacks(slots, item, amount, item);
    let (filled, left) = fill_stacks(slots, item, amount).unwrap();
    if left != 0 {
        lemma_fill_empty(filled, item, left, item);
        lemma_fill_empty(filled, item, left, other);
    }
}

/// Within the stack limit, adding any list of requests succeeds and keeps every stack within
/// the limit.
pub proof fn law_add_within_limit(slots: Seq<SlotV>, items: Seq<(ItemV, u32)>, rest: Seq<(ItemV, u32)>)
    requires
        stacks_within_limit(slots),
    ensures
        add_all(slots, items, rest) is Some,
        stacks_within_limit(add_all(slots, items, rest).unwrap().0),
    decreases items.len(),
{
    if items.len() > 0 {
        let item = items[0].0;
        lemma_add_one(slots, item, items[0].1 as nat, item);
        let (next, back) = add_one(slots, item, items[0].1 as nat).unwrap();
        let rest2 = match back {
            Some(left) => rest.push((item, left as u32)),
            None => rest,
        };
        law_add_within_limit(next, items.drop_first(), rest2);
    }
}

/// The total of a list of requests counted from the front: the first request, then the rest.
pub proof fn lemma_count_requests_first(items: Seq<(ItemV, u32)>, item: ItemV)
    requires
        items.len() > 0,
    ensures
        count_requests(items, item) == amount_in(Some(items[0]), item) + count_requests(items.drop_first(), item),
    decreases items.len(),
{
    if items.len() > 1 {
        lemma_count_requests_first(items.drop_last(), item);
        assert(items.drop_last().drop_first() =~= items.drop_first().drop_last());
        assert(items.drop_last()[0] == items[0]);
        assert(items.drop_first().last() == items.last());
        assert(count_requests(items.drop_first(), item) == count_requests(items.drop_first().drop_last(), item)
            + amount_in(Some(items.drop_first().last()), item));
    } else {
        assert(items.drop_first().len() == 0);
        assert(items.drop_last().len() == 0);
        assert(items.last() == items[0]);
        assert(count_requests(items.drop_last(), item) == 0);
        assert(count_requests(items.drop_first(), item) == 0);
    }
}

/// Nothing is lost in adding: for every item, what the slots hold afterwards plus what is
/// handed back equals what they held before plus what was asked for (and what had already
/// been handed back). Other slots-independent facts: the slot count stays the same.
pub proof fn law_add_conserves(slots: Seq<SlotV>, items: Seq<(ItemV, u32)>, rest: Seq<(ItemV, u32)>, item: ItemV)
    requires
        stacks_within_limit(slots),
    ensures
        add_all(slots, items, rest) is Some,
        count(add_all(slots, items, rest).unwrap().0, item) + count_requests(add_all(slots, items, rest).unwrap().1, item)
            == count(slots, item) + count_requests(items, item) + count_requests(rest, item),
        add_all(slots, items, rest).unwrap().0.len() == slots.len(),
    decreases items.len(),
{
    law_add_within_limit(slots, items, rest);
    if items.len() > 0 {
        let first = items[0].0;
        lemma_add_one(slots, first, items[0].1 as nat, item);
        lemma_add_one(slots, first, items[0].1 as nat, first);
        lemma_count_requests_first(items, item);
        let (next, back) = add_one(slots, first, items[0].1 as nat).unwrap();
        let rest2 = match back {
            Some(left) => rest.push((first, left as u32)),
            None => rest,
        };
        match back {
            Some(left) => {
                assert(rest2.drop_last() =~= rest);
                assert(count_requests(rest2, item) == count_requests(rest, item) + amount_in(Some((first, left as u32)), item));
            },
            None => {},
        }
        law_add_conserves(next, items.drop_first(), rest2, item);
    }
}

/// The total amount of `item` in a list of requests.
pub open spec fn count_requests(items: Seq<(ItemV, u32)>, item: ItemV) -> nat
    decreases items.len(),
{
    if items.len() == 0 {
        0
    } else {
        count_requests(items.drop_last(), item) + amount_in(Some(items.last()), item)
    }
}

/// What was added is held: after adding an amount of an item that leaves nothing over,
/// the inventory holds at least that amount of it, and removing that amount again gives
/// back the count of every item from before the addition.
pub proof fn law_added_items_are_held(slots: Seq<SlotV>, item: ItemV, amount: u32, other: ItemV)
    requires
        stacks_within_limit(slots),
        all_placed(slots, seq![(item, amount)]),
    ensures
        holds_all(add_all(slots, seq![(item, amount)], seq![]).unwrap().0, seq![(item, amount)]),
        count(
            take_out_all(add_all(slots, seq![(item, amount)], seq![]).unwrap().0, seq![(item, amount)]),
            other,
        ) == count(slots, other),
{
    let single = seq![(item, amount)];
    let no_rest = Seq::<(ItemV, u32)>::empty();
    let after = add_all(slots, single, no_rest).unwrap().0;
    law_add_conserves(slots, single, no_rest, other);
    law_add_conserves(slots, single, no_rest, item);
    assert(single.drop_last() =~= no_rest);
    assert(count_requests(no_rest, item) == 0);
    assert(count_requests(no_rest, other) == 0);
    assert(count_requests(single, item) == amount);
    assert(count_requests(single, other) == amount_in(Some((item, amount)), other));
    assert(count(after, item) == count(slots, item) + amount);
    assert(single[0].0 == item);
    law_remove_one_request(after, item, amount, other);
}

/// Adding a list laid end to end is adding the first part, then the second.
pub proof fn lemma_add_all_split(slots: Seq<SlotV>, a: Seq<(ItemV, u32)>, b: Seq<(ItemV, u32)>, rest: Seq<(ItemV, u32)>)
    ensures
        add_all(slots, a + b, rest) == match add_all(slots, a, rest) {
            Some((s, r)) => add_all(s, b, r),
            None => None,
        },
    decreases a.len(),
{
    if a.len() == 0 {
        assert(a + b =~= b);
    } else {
        assert((a + b)[0] == a[0]);
        assert((a + b).drop_first() =~= a.drop_first() + b);
        match add_one(slots, a[0].0, a[0].1 as nat) {
            None => {},
            Some((next, back)) => {
                let rest2 = match back {
                    Some(left) => rest.push((a[0].0, left as u32)),
                    None => rest,
                };
                lemma_add_all_split(next, a.drop_first(), b, rest2);
            },
        }
    }
}

/// What has been handed back stays handed back: adding more only lengthens the list.
pub proof fn lemma_add_all_rest_grows(slots: Seq<SlotV>, items: Seq<(ItemV, u32)>, rest: Seq<(ItemV, u32)>)
    ensures
        add_all(slots, items, rest) matches Some((_, r)) ==> r.len() >= rest.len(),
    decreases items.len(),
{
    if items.len() > 0 {
        match add_one(slots, items[0].0, items[0].1 as nat) {
            None => {},
            Some((next, back)) => {
                let rest2 = match back {
                    Some(left) => rest.push((items[0].0, left as u32)),
                    None => rest,
                };
                lemma_add_all_rest_grows(next, items.drop_first(), rest2);
            },
        }
    }
}

/// A list of requests that fits has every beginning fit: when `can_add` answers true for a
/// list, it answers true for each of its prefixes.
pub proof fn law_fitting_list_prefix_fits(
    filter: Option<ProductFilter>,
    slots: Seq<SlotV>,
    items: Seq<(ItemV, u32)>,
    more: Seq<(ItemV, u32)>,
)
    requires
        accepts_all(filter, items + more),
        all_placed(slots, items + more),
    ensures
        accepts_all(filter, items),
        all_placed(slots, items),
{
    lemma_add_all_split(slots, items, more, seq![]);
    let (s, r) = add_all(slots, items, seq![]).unwrap();
    lemma_add_all_rest_grows(s, more, r);
    match filter {
        Some(f) => {
            assert forall|k: int| 0 <= k < items.len() implies filter_products(f).contains(#[trigger] items[k].0) by {
                assert((items + more)[k] == items[k]);
            }
        },
        None => {},
    }
}

/// Adding one item is adding the list of that one request: on the same slots, `add_item`
/// and `add_items` with the one-element list leave the same slots and hand back the same
/// remainder.
pub proof fn law_add_item_is_add_items(slots: Seq<SlotV>, resource: Item, amount: u32)
    ensures
        items_view(seq![(resource, amount)]) == seq![(resource@, amount)],
        add_all(slots, items_view(seq![(resource, amount)]), seq![]) == add_all(slots, seq![(resource@, amount)], seq![]),
{
    assert(items_view(seq![(resource, amount)]) =~= seq![(resource@, amount)]);
}

/// A drop within an inventory is the transfer between its two slots: the source and target
/// slots become what `slots_transferred` makes of them, and every other slot stays.
pub proof fn law_drop_is_slot_transfer(slots: Seq<SlotV>, source: int, target: int)
    requires
        drop_allowed(slots, source, target),
        0 <= source < slots.len(),
        0 <= target < slots.len(),
        source != target,
    ensures
        dropped(slots, source, target).len() == slots.len(),
        (dropped(slots, source, target)[source], dropped(slots, source, target)[target])
            == slots_transferred(slots[source], slots[target]),
        forall|k: int| 0 <= k < slots.len() && k != source && k != target
            ==> #[trigger] dropped(slots, source, target)[k] == slots[k],
{
}

/// A slot after topping up stacks of `item` with `amount`: an empty slot stays empty, a
/// stack keeps its item and does not shrink, and a stack of another item, or any stack when
/// nothing is added, stays as it was.
pub open spec fn slot_kept(before: SlotV, after: SlotV, item: ItemV, amount: nat) -> bool {
    &&& before is None ==> after is None
    &&& before is Some ==> after is Some && after.unwrap().0 == before.unwrap().0 && after.unwrap().1 >= before.unwrap().1
    &&& before is Some && (before.unwrap().0 != item || amount == 0) ==> after == before
}

/// Topping up the stacks keeps every slot in place; see `slot_kept`.
proof fn lemma_fill_in_place(slots: Seq<SlotV>, item: ItemV, amount: nat)
    requires
        fill_stacks(slots, item, amount) is Some,
    ensures
        fill_stacks(slots, item, amount).unwrap().0.len() == slots.len(),
        forall|k: int| 0 <= k < slots.len()
            ==> #[trigger] slot_kept(slots[k], fill_stacks(slots, item, amount).unwrap().0[k], item, amount),
    decreases slots.len(),
{
    if slots.len() > 0 {
        let rest = slots.drop_first();
        let result = fill_stacks(slots, item, amount).unwrap().0;
        match slots[0] {
            None => {
                lemma_fill_in_place(rest, item, amount);
                let inner = fill_stacks(rest, item, amount).unwrap().0;
                assert(result =~= seq![None] + inner);
                assert forall|k: int| 0 <= k < slots.len() implies #[trigger] slot_kept(slots[k], result[k], item, amount) by {
                    if k > 0 {
                        assert(slots[k] == rest[k - 1]);
                        assert(slot_kept(rest[k - 1], inner[k - 1], item, amount));
                    }
                }
            },
            Some(stack) => {
                let space = MAX_STACK_SIZE - stack.1;
                let head: SlotV = if stack.0 != item {
                    slots[0]
                } else if space >= amount {
                    Some((item, (stack.1 + amount) as u32))
                } else {
                    Some((item, MAX_STACK_SIZE))
                };
                let left: nat = if stack.0 != item {
                    amount
                } else if space >= amount {
                    0
                } else {
                    (amount - space) as nat
                };
                if left == 0 {
                    assert(result =~= seq![head] + rest);
                    assert forall|k: int| 0 <= k < slots.len() implies #[trigger] slot_kept(slots[k], result[k], item, amount) by {
                        if k > 0 {
                            assert(slots[k] == rest[k - 1]);
                        }
                    }
                } else {
                    lemma_fill_in_place(rest, item, left);
                    let inner = fill_stacks(rest, item, left).unwrap().0;
                    assert(result =~= seq![head] + inner);
                    assert forall|k: int| 0 <= k < slots.len() implies #[trigger] slot_kept(slots[k], result[k], item, amount) by {
                        if k > 0 {
                            assert(slots[k] == rest[k - 1]);
                            assert(slot_kept(rest[k - 1], inner[k - 1], item, left));
                        }
                    }
                }
            },
        }
    }
}

/// The stacks of `before` are all still in place in `after`: the same slot count, each stack
/// keeps its slot and item and does not shrink, and a stack of an item not asked for in
/// `items` stays exactly as it was.
pub open spec fn stacks_kept(before: Seq<SlotV>, after: Seq<SlotV>, items: Seq<(ItemV, u32)>) -> bool {
    &&& after.len() == before.len()
    &&& forall|k: int| 0 <= k < before.len() && (#[trigger] before[k]) is Some ==> {
        &&& after[k] is Some
        &&& after[k].unwrap().0 == before[k].unwrap().0
        &&& after[k].unwrap().1 >= before[k].unwrap().1
        &&& count_requests(items, before[k].unwrap().0) == 0 ==> after[k] == before[k]
    }
}

/// Adding never moves or shrinks a stack, keeps the slot count and the stack limit, and
/// leaves the stacks of items not asked for as they were.
pub proof fn law_add_keeps_stacks(slots: Seq<SlotV>, items: Seq<(ItemV, u32)>, rest: Seq<(ItemV, u32)>)
    requires
        stacks_within_limit(slots),
    ensures
        add_all(slots, items, rest) is Some,
        stacks_within_limit(add_all(slots, items, rest).unwrap().0),
        stacks_kept(slots, add_all(slots, items, rest).unwrap().0, items),
    decreases items.len(),
{
    law_add_within_limit(slots, items, rest);
    let result = add_all(slots, items, rest).unwrap().0;
    if items.len() == 0 {
        assert forall|k: int| 0 <= k < slots.len() && (#[trigger] slots[k]) is Some implies
            count_requests(items, slots[k].unwrap().0) == 0 by {}
    } else {
        let item = items[0].0;
        let amount = items[0].1 as nat;
        lemma_add_one(slots, item, amount, item);
        lemma_fill_in_place(slots, item, amount);
        let (filled, left) = fill_stacks(slots, item, amount).unwrap();
        let (next, back) = add_one(slots, item, amount).unwrap();
        let rest2 = match back {
            Some(l) => rest.push((item, l as u32)),
            None => rest,
        };
        law_add_keeps_stacks(next, items.drop_first(), rest2);
        assert(result == add_all(next, items.drop_first(), rest2).unwrap().0);
        if left != 0 {
            lemma_fill_empty(filled, item, left, item);
        }
        assert forall|k: int| 0 <= k < slots.len() && (#[trigger] slots[k]) is Some implies {
            &&& result[k] is Some
            &&& result[k].unwrap().0 == slots[k].unwrap().0
            &&& result[k].unwrap().1 >= slots[k].unwrap().1
            &&& count_requests(items, slots[k].unwrap().0) == 0 ==> result[k] == slots[k]
        } by {
            assert(slot_kept(slots[k], filled[k], item, amount));
            assert(next[k] == filled[k]);
            assert(next[k] is Some);
            lemma_count_requests_first(items, slots[k].unwrap().0);
        }
    }
}

/// One request keeps the slot count and never empties a slot, and it hands something back
/// only when afterwards every slot holds a stack.
proof fn lemma_add_one_fills_up(slots: Seq<SlotV>, item: ItemV, amount: nat)
    requires
        add_one(slots, item, amount) is Some,
    ensures
        add_one(slots, item, amount).unwrap().0.len() == slots.len(),
        forall|k: int| 0 <= k < slots.len() && (#[trigger] slots[k]) is Some
            ==> add_one(slots, item, amount).unwrap().0[k] is Some,
        add_one(slots, item, amount).unwrap().1 is Some ==> forall|k: int|
            0 <= k < slots.len() ==> (#[trigger] add_one(slots, item, amount).unwrap().0[k]) is Some,
{
    lemma_fill_in_place(slots, item, amount);
    let (filled, left) = fill_stacks(slots, item, amount).unwrap();
    assert forall|k: int| 0 <= k < slots.len() && (#[trigger] slots[k]) is Some implies filled[k] is Some by {
        assert(slot_kept(slots[k], filled[k], item, amount));
    }
    if left != 0 {
        lemma_fill_empty(filled, item, left, item);
    }
}

/// Adding hands something back only when the inventory is full: when the requests leave
/// anything over, or when every slot already held a stack, every slot holds a stack
/// afterwards. The slot count stays the same.
pub proof fn law_remainder_only_when_full(slots: Seq<SlotV>, items: Seq<(ItemV, u32)>, rest: Seq<(ItemV, u32)>)
    requires
        add_all(slots, items, rest) is Some,
    ensures
        add_all(slots, items, rest).unwrap().0.len() == slots.len(),
        add_all(slots, items, rest).unwrap().1.len() > rest.len()
            || (forall|k: int| 0 <= k < slots.len() ==> (#[trigger] slots[k]) is Some)
            ==> forall|k: int| 0 <= k < slots.len() ==> (#[trigger] add_all(slots, items, rest).unwrap().0[k]) is Some,
    decreases items.len(),
{
    if items.len() > 0 {
        let item = items[0].0;
        let amount = items[0].1 as nat;
        lemma_add_one_fills_up(slots, item, amount);
        let (next, back) = add_one(slots, item, amount).unwrap();
        let rest2 = match back {
            Some(l) => rest.push((item, l as u32)),
            None => rest,
        };
        law_remainder_only_when_full(next, items.drop_first(), rest2);
        lemma_add_all_rest_grows(next, items.drop_first(), rest2);
        let result = add_all(slots, items, rest).unwrap();
        assert(result == add_all(next, items.drop_first(), rest2).unwrap());
        if result.1.len() > rest.len() || (forall|k: int| 0 <= k < slots.len() ==> (#[trigger] slots[k]) is Some) {
            if back is None && result.1.len() > rest.len() {
                assert(result.1.len() > rest2.len());
            }
            if back is Some {
                assert(forall|k: int| 0 <= k < next.len() ==> (#[trigger] next[k]) is Some);
            } else if result.1.len() <= rest.len() {
                assert forall|k: int| 0 <= k < next.len() implies (#[trigger] next[k]) is Some by {
                    assert(slots[k] is Some);
                }
            }
        }
    }
}

/// Every stack of `after` is the stack of the same slot of `before`, with the same item and
/// no more of it; stacks of items not asked for in `items` stay exactly as they were.
pub open spec fn lowered_in_place(before: Seq<SlotV>, after: Seq<SlotV>, items: Seq<(ItemV, u32)>) -> bool {
    &&& after.len() == before.len()
    &&& forall|k: int| 0 <= k < after.len() && (#[trigger] after[k]) is Some ==> {
        &&& before[k] is Some
        &&& after[k].unwrap().0 == before[k].unwrap().0
        &&& after[k].unwrap().1 <= before[k].unwrap().1
    }
    &&& forall|k: int| 0 <= k < before.len() && (#[trigger] before[k]) is Some
        && count_requests(items, before[k].unwrap().0) == 0 ==> after[k] == before[k]
}

/// Taking out one request lowers stacks of its item in place and leaves the others.
proof fn lemma_take_out_in_place(slots: Seq<SlotV>, item: ItemV, amount: nat)
    ensures
        take_out(slots, item, amount).len() == slots.len(),
        forall|k: int| 0 <= k < slots.len() && (#[trigger] take_out(slots, item, amount)[k]) is Some ==> {
            &&& slots[k] is Some
            &&& take_out(slots, item, amount)[k].unwrap().0 == slots[k].unwrap().0
            &&& take_out(slots, item, amount)[k].unwrap().1 <= slots[k].unwrap().1
        },
        forall|k: int| 0 <= k < slots.len() && (#[trigger] slots[k]) is Some
            && (slots[k].unwrap().0 != item || amount == 0) ==> take_out(slots, item, amount)[k] == slots[k],
    decreases slots.len(),
{
    if slots.len() > 0 && amount > 0 {
        let rest = slots.drop_first();
        let result = take_out(slots, item, amount);
        match slots[0] {
            Some(stack) => {
                if stack.0 == item {
                    if stack.1 >= amount {
                        let left = (stack.1 - amount) as u32;
                        assert(result =~= seq![if left == 0 { None } else { Some((item, left)) }] + rest);
                        assert forall|k: int| 0 <= k < slots.len() && k > 0 implies result[k] == slots[k] by {
                            assert(slots[k] == rest[k - 1]);
                        }
                    } else {
                        let inner = take_out(rest, item, (amount - stack.1) as nat);
                        lemma_take_out_in_place(rest, item, (amount - stack.1) as nat);
                        assert(result =~= seq![None] + inner);
                        assert forall|k: int| 0 <= k < slots.len() && k > 0 implies slots[k] == rest[k - 1] && result[k] == inner[k - 1] by {}
                    }
                } else {
                    let inner = take_out(rest, item, amount);
                    lemma_take_out_in_place(rest, item, amount);
                    assert(result =~= seq![slots[0]] + inner);
                    assert forall|k: int| 0 <= k < slots.len() && k > 0 implies slots[k] == rest[k - 1] && result[k] == inner[k - 1] by {}
                }
            },
            None => {
                let inner = take_out(rest, item, amount);
                lemma_take_out_in_place(rest, item, amount);
                assert(result =~= seq![slots[0]] + inner);
                assert forall|k: int| 0 <= k < slots.len() && k > 0 implies slots[k] == rest[k - 1] && result[k] == inner[k - 1] by {}
            },
        }
    }
}

/// Removing only lowers stacks in place: no stack moves or changes its item, none grows,
/// and the stacks of items not asked for stay as they were.
pub proof fn law_removal_lowers_in_place(slots: Seq<SlotV>, items: Seq<(ItemV, u32)>)
    ensures
        lowered_in_place(slots, take_out_all(slots, items), items),
    decreases items.len(),
{
    if items.len() > 0 {
        let item = items[0].0;
        let amount = items[0].1 as nat;
        let next = take_out(slots, item, amount);
        lemma_take_out_in_place(slots, item, amount);
        law_removal_lowers_in_place(next, items.drop_first());
        let result = take_out_all(slots, items);
        assert(result == take_out_all(next, items.drop_first()));
        assert forall|k: int| 0 <= k < result.len() && (#[trigger] result[k]) is Some implies {
            &&& slots[k] is Some
            &&& result[k].unwrap().0 == slots[k].unwrap().0
            &&& result[k].unwrap().1 <= slots[k].unwrap().1
        } by {
            assert(next[k] is Some);
        }
        assert forall|k: int| 0 <= k < slots.len() && (#[trigger] slots[k]) is Some
            && count_requests(items, slots[k].unwrap().0) == 0 implies result[k] == slots[k] by {
            lemma_count_requests_first(items, slots[k].unwrap().0);
            assert(next[k] == slots[k]);
        }
    } else {
        assert(take_out_all(slots, items) == slots);
    }
}

/// Putting a stack into the slots leaves every stack of another item where it was, keeps
/// the slot count, and hands something back only when no slot was empty; what is handed
/// back is of the stack's item.
pub proof fn law_place_stack_others_stay(slots: Seq<SlotV>, stack: StackV)
    requires
        place_stack(slots, stack) is Some,
    ensures
        place_stack(slots, stack).unwrap().0.len() == slots.len(),
        forall|k: int| 0 <= k < slots.len() && (#[trigger] slots[k]) is Some && slots[k].unwrap().0 != stack.0
            ==> place_stack(slots, stack).unwrap().0[k] == slots[k],
        place_stack(slots, stack).unwrap().1 matches Some(left) ==> {
            &&& left.0 == stack.0
            &&& forall|k: int| 0 <= k < slots.len() ==> (#[trigger] slots[k]) is Some
        },
    decreases slots.len(),
{
    if slots.len() > 0 {
        let rest = slots.drop_first();
        let (result, left) = place_stack(slots, stack).unwrap();
        match slots[0] {
            None => {
                assert(result =~= seq![Some(stack)] + rest);
                assert forall|k: int| 0 <= k < slots.len() && k > 0 implies result[k] == slots[k] by {
                    assert(slots[k] == rest[k - 1]);
                }
            },
            Some(existing) => {
                if existing.0 != stack.0 {
                    law_place_stack_others_stay(rest, stack);
                    let inner = place_stack(rest, stack).unwrap().0;
                    assert(result =~= seq![slots[0]] + inner);
                    assert forall|k: int| 0 <= k < slots.len() && k > 0 implies slots[k] == rest[k - 1] && result[k] == inner[k - 1] by {}
                } else {
                    let sum = existing.1 + stack.1;
                    let kept: u32 = if sum > MAX_STACK_SIZE { MAX_STACK_SIZE } else { sum as u32 };
                    let over = (sum - kept) as u32;
                    if over == 0 {
                        assert(result =~= seq![Some((existing.0, kept))] + rest);
                        assert forall|k: int| 0 <= k < slots.len() && k > 0 implies result[k] == slots[k] by {
                            assert(slots[k] == rest[k - 1]);
                        }
                    } else {
                        law_place_stack_others_stay(rest, (stack.0, over));
                        let inner = place_stack(rest, (stack.0, over)).unwrap().0;
                        assert(result =~= seq![Some((existing.0, kept))] + inner);
                        assert forall|k: int| 0 <= k < slots.len() && k > 0 implies slots[k] == rest[k - 1] && result[k] == inner[k - 1] by {}
                    }
                }
            },
        }
        if left is Some {
            assert forall|k: int| 0 <= k < slots.len() implies (#[trigger] slots[k]) is Some by {
                if k > 0 {
                    assert(slots[k] == rest[k - 1]);
                }
            }
        }
    }
}

/// The first stack among the slots, if there is one.
pub open spec fn first_stack(slots: Seq<SlotV>) -> Option<StackV>
    decreases slots.len(),
{
    if slots.len() == 0 {
        None
    } else {
        match slots[0] {
            Some(stack) => Some(stack),
            None => first_stack(slots.drop_first()),
        }
    }
}

/// Collecting onto a stack already taken: the taken stack keeps its item, the slot count
/// stays, and the stacks of other items stay where they were.
proof fn lemma_take_more_others_stay(slots: Seq<SlotV>, max_size: u32, acc: StackV)
    requires
        take_from(slots, max_size, Some(acc)) is Some,
    ensures
        take_from(slots, max_size, Some(acc)).unwrap().0.len() == slots.len(),
        take_from(slots, max_size, Some(acc)).unwrap().1 matches Some(t) && t.0 == acc.0,
        forall|k: int| 0 <= k < slots.len() && (#[trigger] slots[k]) is Some && slots[k].unwrap().0 != acc.0
            ==> take_from(slots, max_size, Some(acc)).unwrap().0[k] == slots[k],
    decreases slots.len(),
{
    if slots.len() > 0 {
        let rest = slots.drop_first();
        let result = take_from(slots, max_size, Some(acc)).unwrap().0;
        match slots[0] {
            None => {
                lemma_take_more_others_stay(rest, max_size, acc);
                let inner = take_from(rest, max_size, Some(acc)).unwrap().0;
                assert(result =~= seq![None] + inner);
                assert forall|k: int| 0 <= k < slots.len() && k > 0 implies slots[k] == rest[k - 1] && result[k] == inner[k - 1] by {}
            },
            Some(existing) => {
                let n: u32 = if max_size < existing.1 { max_size } else { existing.1 };
                let left = (existing.1 - n) as u32;
                let head: SlotV = if left == 0 { None } else { Some((existing.0, left)) };
                if acc.0 != existing.0 {
                    lemma_take_more_others_stay(rest, max_size, acc);
                    let inner = take_from(rest, max_size, Some(acc)).unwrap().0;
                    assert(result =~= seq![slots[0]] + inner);
                    assert forall|k: int| 0 <= k < slots.len() && k > 0 implies slots[k] == rest[k - 1] && result[k] == inner[k - 1] by {}
                } else {
                    let acc2 = (acc.0, (acc.1 + n) as u32);
                    lemma_take_more_others_stay(rest, max_size, acc2);
                    let inner = take_from(rest, max_size, Some(acc2)).unwrap().0;
                    assert(result =~= seq![head] + inner);
                    assert forall|k: int| 0 <= k < slots.len() && k > 0 implies slots[k] == rest[k - 1] && result[k] == inner[k - 1] by {}
                }
            },
        }
    }
}

/// Taking a stack takes from the first stack's item: a stack comes out exactly when there
/// is one, it is of the item of the first stack, the slot count stays, and the stacks of
/// other items stay where they were.
pub proof fn law_take_stack_first_item(slots: Seq<SlotV>, max_size: u32)
    requires
        take_from(slots, max_size, None) is Some,
    ensures
        take_from(slots, max_size, None).unwrap().0.len() == slots.len(),
        take_from(slots, max_size, None).unwrap().1 is Some <==> first_stack(slots) is Some,
        take_from(slots, max_size, None).unwrap().1 matches Some(t) ==> {
            &&& t.0 == first_stack(slots).unwrap().0
            &&& forall|k: int| 0 <= k < slots.len() && (#[trigger] slots[k]) is Some && slots[k].unwrap().0 != t.0
                ==> take_from(slots, max_size, None).unwrap().0[k] == slots[k]
        },
    decreases slots.len(),
{
    if slots.len() > 0 {
        let rest = slots.drop_first();
        let (result, taken) = take_from(slots, max_size, None).unwrap();
        match slots[0] {
            None => {
                law_take_stack_first_item(rest, max_size);
                let inner = take_from(rest, max_size, None).unwrap().0;
                assert(result =~= seq![None] + inner);
                assert forall|k: int| 0 <= k < slots.len() && k > 0 implies slots[k] == rest[k - 1] && result[k] == inner[k - 1] by {}
            },
            Some(existing) => {
                let n: u32 = if max_size < existing.1 { max_size } else { existing.1 };
                let left = (existing.1 - n) as u32;
                let head: SlotV = if left == 0 { None } else { Some((existing.0, left)) };
                lemma_take_more_others_stay(rest, max_size, (existing.0, n));
                let inner = take_from(rest, max_size, Some((existing.0, n))).unwrap().0;
                assert(result =~= seq![head] + inner);
                assert forall|k: int| 0 <= k < slots.len() && k > 0 implies slots[k] == rest[k - 1] && result[k] == inner[k - 1] by {}
            },
        }
    }
}

/// Taking a stack out only moves amounts from the slots into the taken stack: for every
/// item, what the slots hold plus what has been taken stays the same.
pub proof fn law_take_conserves(slots: Seq<SlotV>, max_size: u32, taken: Option<StackV>, item: ItemV)
    requires
        take_from(slots, max_size, taken) is Some,
    ensures
        count(take_from(slots, max_size, taken).unwrap().0, item) + amount_in(take_from(slots, max_size, taken).unwrap().1, item)
            == count(slots, item) + amount_in(taken, item),
        take_from(slots, max_size, taken).unwrap().0.len() == slots.len(),
    decreases slots.len(),
{
    if slots.len() > 0 {
        let rest = slots.drop_first();
        lemma_count_cons(slots, item);
        match slots[0] {
            None => {
                law_take_conserves(rest, max_size, taken, item);
                let (tail, out) = take_from(rest, max_size, taken).unwrap();
                lemma_count_prepend(None, tail, item);
            },
            Some(existing) => {
                let n: u32 = if max_size < existing.1 { max_size } else { existing.1 };
                let left = (existing.1 - n) as u32;
                let head: SlotV = if left == 0 { None } else { Some((existing.0, left)) };
                match taken {
                    None => {
                        law_take_conserves(rest, max_size, Some((existing.0, n)), item);
                        let (tail, out) = take_from(rest, max_size, Some((existing.0, n))).unwrap();
                        lemma_count_prepend(head, tail, item);
                    },
                    Some(acc) => {
                        if acc.0 != existing.0 {
                            law_take_conserves(rest, max_size, taken, item);
                            let (tail, out) = take_from(rest, max_size, taken).unwrap();
                            lemma_count_prepend(slots[0], tail, item);
                        } else {
                            let next = Some((acc.0, (acc.1 + n) as u32));
                            law_take_conserves(rest, max_size, next, item);
                            let (tail, out) = take_from(rest, max_size, next).unwrap();
                            lemma_count_prepend(head, tail, item);
                        }
                    },
                }
            },
        }
    }
}

/// Putting a stack into the slots only moves its amount into them: for every item, what
/// the slots hold plus what is left over equals what they held plus the stack.
pub proof fn law_place_conserves(slots: Seq<SlotV>, stack: StackV, item: ItemV)
    requires
        place_stack(slots, stack) is Some,
    ensures
        count(place_stack(slots, stack).unwrap().0, item) + amount_in(place_stack(slots, stack).unwrap().1, item)
            == count(slots, item) + amount_in(Some(stack), item),
        place_stack(slots, stack).unwrap().0.len() == slots.len(),
    decreases slots.len(),
{
    if slots.len() > 0 {
        let rest = slots.drop_first();
        lemma_count_cons(slots, item);
        match slots[0] {
            None => {
                lemma_count_prepend(Some(stack), rest, item);
            },
            Some(existing) => {
                if existing.0 != stack.0 {
                    law_place_conserves(rest, stack, item);
                    let (tail, out) = place_stack(rest, stack).unwrap();
                    lemma_count_prepend(slots[0], tail, item);
                } else {
                    let sum = existing.1 + stack.1;
                    let kept: u32 = if sum > MAX_STACK_SIZE { MAX_STACK_SIZE } else { sum as u32 };
                    let over = (sum - kept) as u32;
                    if over == 0 {
                        lemma_count_prepend(Some((existing.0, kept)), rest, item);
                    } else {
                        law_place_conserves(rest, (stack.0, over), item);
                        let (tail, out) = place_stack(rest, (stack.0, over)).unwrap();
                        lemma_count_prepend(Some((existing.0, kept)), tail, item);
                    }
                }
            },
        }
    }
}

/// Moving one stack onto another never creates or loses items: for every item, the two
/// stacks hold together what they held before.
pub proof fn law_transfer_conserves(source: StackV, target: StackV, item: ItemV)
    requires
        transfer_fits(source, target),
    ensures
        amount_in(Some(transferred(source, target).0), item) + amount_in(Some(transferred(source, target).1), item)
            == amount_in(Some(source), item) + amount_in(Some(target), item),
{
}

/// Dropping one slot onto another inside an inventory never creates or loses items: every
/// item keeps its count.
pub proof fn law_drop_conserves(slots: Seq<SlotV>, source: int, target: int, item: ItemV)
    requires
        drop_allowed(slots, source, target),
    ensures
        count(dropped(slots, source, target), item) == count(slots, item),
        dropped(slots, source, target).len() == slots.len(),
{
    if 0 <= source < slots.len() && slots[source] is Some {
        let s = slots[source].unwrap();
        if slots[target] is Some {
            let t = slots[target].unwrap();
            let (s2, t2) = transferred(s, t);
            let first = slots.update(target, Some(t2));
            let s2_slot: SlotV = if s2.1 > 0 { Some(s2) } else { None };
            law_transfer_conserves(s, t, item);
            lemma_count_update(slots, target, Some(t2), item);
            lemma_count_update(first, source, s2_slot, item);
            if source == target {
                assert(s == t);
            }
        } else {
            let first = slots.update(target, Some(s));
            lemma_count_update(slots, target, Some(s), item);
            lemma_count_update(first, source, None, item);
        }
    }
}

} // verus!
