//! The 0/1 knapsack problem: items with a cost and a weight, a bag of a
//! given size, and the selections of items that fit into the bag.
use vstd::prelude::*;
use vstd::string::StringExecFns;
use crate::problem::{OptProblemKind, SolutionKind};
use crate::text::{append_decimal, decimal};

pub mod algorithms;
pub mod exact;
pub mod ratio;
pub mod reductions;
pub mod scaling;

verus! {

/// What an item is to the mathematics: a cost and a weight.
pub struct ItemModel {
    pub cost: u32,
    pub weight: u32,
}

/// What an instance is to the mathematics: the items in their order, an
/// item's position being its identity, and the capacity of the bag.
pub struct Knapsack {
    pub items: Seq<ItemModel>,
    pub capacity: nat,
}

impl Knapsack {
    /// Every item has a positive weight, and every item has an index.
    pub open spec fn wf(self) -> bool {
        &&& self.items.len() <= usize::MAX
        &&& forall|i: int| 0 <= i < self.items.len() ==> (#[trigger] self.items[i]).weight > 0
    }
}

/// Every index of `packed` names one of `n` items.
pub open spec fn in_range(n: nat, packed: Seq<usize>) -> bool {
    forall|k: int| 0 <= k < packed.len() ==> (#[trigger] packed[k]) < n
}

/// The indices of `packed` ascend strictly: none occurs twice.
pub open spec fn ascending(packed: Seq<usize>) -> bool {
    forall|k: int, l: int| 0 <= k < l < packed.len() ==> packed[k] < packed[l]
}

/// `packed` names item `i`.
pub open spec fn names(packed: Seq<usize>, i: int) -> bool {
    exists|k: int| 0 <= k < packed.len() && packed[k] == i
}

/// The sum of the weights of the items that `packed` names.
pub open spec fn weight_of(items: Seq<ItemModel>, packed: Seq<usize>) -> nat
    decreases packed.len(),
{
    if packed.len() == 0 {
        0
    } else if packed.last() < items.len() {
        weight_of(items, packed.drop_last()) + items[packed.last() as int].weight as nat
    } else {
        weight_of(items, packed.drop_last())
    }
}

/// The sum of the costs of the items that `packed` names.
pub open spec fn cost_of(items: Seq<ItemModel>, packed: Seq<usize>) -> nat
    decreases packed.len(),
{
    if packed.len() == 0 {
        0
    } else if packed.last() < items.len() {
        cost_of(items, packed.drop_last()) + items[packed.last() as int].cost as nat
    } else {
        cost_of(items, packed.drop_last())
    }
}

/// `packed` is a selection of items in canonical form.
pub open spec fn canonical(n: nat, packed: Seq<usize>) -> bool {
    in_range(n, packed) && ascending(packed)
}

/// `packed` is a selection in canonical form that fits into the bag.
pub open spec fn feasible(knapsack: Knapsack, packed: Seq<usize>) -> bool {
    &&& canonical(knapsack.items.len(), packed)
    &&& weight_of(knapsack.items, packed) <= knapsack.capacity
}

/// `packed` fits into the bag and no selection that fits costs more.
pub open spec fn optimal(knapsack: Knapsack, packed: Seq<usize>) -> bool {
    &&& feasible(knapsack, packed)
    &&& forall|other: Seq<usize>| #[trigger]
        feasible(knapsack, other) ==> cost_of(knapsack.items, other) <= cost_of(
            knapsack.items,
            packed,
        )
}

/// An item of a knapsack instance.
pub trait Item {
    /// The cost and the weight of the item.
    spec fn model(&self) -> ItemModel;

    /// What the item weighs.
    fn weight(&self) -> (weight: &u32)
        ensures
            *weight == self.model().weight,
    ;

    /// What the item is worth.
    fn cost(&self) -> (cost: &u32)
        ensures
            *cost == self.model().cost,
    ;

    /// The text that shows the item.
    spec fn text(&self) -> Seq<char>;

    /// The item as text.
    fn to_string(&self) -> (text: String)
        ensures
            text@ == self.text(),
    ;
}

/// The plain item: a cost and a weight.
#[derive(Debug, PartialEq, Eq, Clone, Copy)]
pub struct DefaultItem {
    cost: u32,
    weight: u32,
}

impl DefaultItem {
    /// The item of the pair `(cost, weight)`.
    pub fn from(input: (u32, u32)) -> (item: Self)
        ensures
            item.model() == (ItemModel { cost: input.0, weight: input.1 }),
    {
        DefaultItem { cost: input.0, weight: input.1 }
    }
}

impl Item for DefaultItem {
    closed spec fn model(&self) -> ItemModel {
        ItemModel { cost: self.cost, weight: self.weight }
    }

    fn weight(&self) -> (weight: &u32) {
        &self.weight
    }

    fn cost(&self) -> (cost: &u32) {
        &self.cost
    }

    /// The cost after `c`, the weight after `w`.
    open spec fn text(&self) -> Seq<char> {
        "Item[c = "@ + decimal(self.model().cost as nat) + ", w = "@ + decimal(
            self.model().weight as nat,
        ) + "]"@
    }

    fn to_string(&self) -> (text: String) {
        let mut text = String::from_str("Item[c = ");
        append_decimal(&mut text, self.cost as u128);
        text.append(", w = ");
        append_decimal(&mut text, self.weight as u128);
        text.append("]");
        text
    }
}

/// The texts of a list, with `", "` between one and the next.
pub open spec fn listed(texts: Seq<Seq<char>>) -> Seq<char>
    decreases texts.len(),
{
    if texts.len() == 0 {
        Seq::empty()
    } else if texts.len() == 1 {
        texts[0]
    } else {
        listed(texts.drop_last()) + ", "@ + texts.last()
    }
}

/// Why a list of items is no instance.
#[derive(Debug, PartialEq, Eq, Clone, Copy)]
pub enum InstanceError {
    /// The item at this index, the first such, has weight zero.
    NonPositiveWeight(usize),
}

/// The models of the items of a list.
pub open spec fn models<I: Item>(items: Seq<I>) -> Seq<ItemModel> {
    Seq::new(items.len(), |i: int| items[i].model())
}

/// A knapsack instance: items of positive weight and the size of the bag.
/// It does not change once it is made.
#[derive(Debug)]
pub struct Instance<I: Item> {
    items: Vec<I>,
    size: u32,
}

impl<I: Item> View for Instance<I> {
    type V = Knapsack;

    closed spec fn view(&self) -> Knapsack {
        Knapsack { items: models(self.items@), capacity: self.size as nat }
    }
}

impl<I: Item> Instance<I> {
    /// Every item of an instance weighs something.
    #[verifier::type_invariant]
    pub open spec fn positive_weights(&self) -> bool {
        self@.wf()
    }

    /// The instance of `items` and a bag of `size`. A list in which an item
    /// has weight zero is refused, with the index of the first such item.
    pub fn new(items: Vec<I>, size: u32) -> (made: Result<Self, InstanceError>)
        ensures
            match made {
                Ok(instance) => {
                    &&& instance@.items == models(items@)
                    &&& instance@.capacity == size
                    &&& instance@.wf()
                    &&& instance.items_spec() == items@
                },
                Err(InstanceError::NonPositiveWeight(index)) => {
                    &&& index < items.len()
                    &&& items[index as int].model().weight == 0
                    &&& forall|i: int| 0 <= i < index ==> (#[trigger] items[i]).model().weight > 0
                },
            },
    {
        let mut index: usize = 0;
        while index < items.len()
            invariant
                index <= items.len(),
                forall|i: int| 0 <= i < index ==> (#[trigger] items[i]).model().weight > 0,
            decreases items.len() - index,
        {
            if *items[index].weight() == 0 {
                return Err(InstanceError::NonPositiveWeight(index));
            }
            index += 1;
        }
        Ok(Instance { items, size })
    }

    /// The instance of items that are known to weigh something.
    pub(crate) fn of_weighing(items: Vec<I>, size: u32) -> (instance: Self)
        requires
            forall|i: int| 0 <= i < items.len() ==> (#[trigger] items[i]).model().weight > 0,
        ensures
            instance@.items == models(items@),
            instance@.capacity == size,
    {
        let count = items.len();
        assert forall|i: int| 0 <= i < count implies (#[trigger] models(items@)[i]).weight > 0 by {
            assert(items[i].model().weight > 0);
        }
        Instance { items, size }
    }

    /// The items as the mathematics sees them, in their order.
    pub closed spec fn items_spec(&self) -> Seq<I> {
        self.items@
    }

    /// The items, in their order.
    pub fn items(&self) -> (items: &[I])
        ensures
            items@ == self.items_spec(),
            models(items@) == self@.items,
    {
        self.items.as_slice()
    }

    /// The text that shows the instance: the size of the bag, then the
    /// items in their order.
    pub open spec fn text(&self) -> Seq<char> {
        "Knapsack instance\n   - size = "@ + decimal(self@.capacity) + "\n   - items = { "@
            + listed(Seq::new(self.items_spec().len(), |i: int| self.items_spec()[i].text()))
            + " }\n"@
    }

    /// The instance as text.
    pub fn to_string(&self) -> (text: String)
        ensures
            text@ == self.text(),
    {
        let ghost texts = Seq::new(self.items@.len(), |i: int| self.items@[i].text());
        let mut text = String::from_str("Knapsack instance\n   - size = ");
        append_decimal(&mut text, self.size as u128);
        text.append("\n   - items = { ");
        let ghost head = text@;
        let mut index: usize = 0;
        while index < self.items.len()
            invariant
                index <= self.items.len(),
                texts == Seq::new(self.items@.len(), |i: int| self.items@[i].text()),
                text@ == head + listed(texts.take(index as int)),
            decreases self.items.len() - index,
        {
            proof {
                assert(texts.take(index + 1).drop_last() =~= texts.take(index as int));
                assert(texts.take(index + 1).last() == self.items@[index as int].text());
                if index == 0 {
                    assert(listed(texts.take(0)) =~= Seq::<char>::empty());
                }
            }
            if index > 0 {
                text.append(", ");
            }
            text.append(self.items[index].to_string().as_str());
            index += 1;
            proof {
                assert(text@ =~= head + listed(texts.take(index as int)));
            }
        }
        proof {
            assert(texts.take(index as int) =~= texts);
        }
        text.append(" }\n");
        text
    }

    /// How many items there are.
    pub fn number_of_items(&self) -> (n: usize)
        ensures
            n == self@.items.len(),
    {
        self.items.len()
    }

    /// The capacity of the bag.
    pub fn bag_size(&self) -> (size: &u32)
        ensures
            *size == self@.capacity,
    {
        &self.size
    }
}

impl Instance<DefaultItem> {
    /// The instance of a list of `(cost, weight)` pairs and a bag size. It
    /// is refused as `new` refuses it.
    pub fn from(input: (Vec<(u32, u32)>, u32)) -> (made: Result<Self, InstanceError>)
        ensures
            match made {
                Ok(instance) => {
                    &&& instance@.items == pair_models(input.0@)
                    &&& instance@.capacity == input.1
                    &&& instance@.wf()
                },
                Err(InstanceError::NonPositiveWeight(index)) => {
                    &&& index < input.0.len()
                    &&& input.0[index as int].1 == 0
                    &&& forall|i: int| 0 <= i < index ==> (#[trigger] input.0[i]).1 > 0
                },
            },
    {
        let pairs = input.0;
        let mut items: Vec<DefaultItem> = Vec::new();
        let mut index: usize = 0;
        while index < pairs.len()
            invariant
                index <= pairs.len(),
                items.len() == index,
                forall|i: int|
                    0 <= i < index ==> (#[trigger] items[i]).model() == (ItemModel {
                        cost: pairs[i].0,
                        weight: pairs[i].1,
                    }),
            decreases pairs.len() - index,
        {
            items.push(DefaultItem::from(pairs[index]));
            index += 1;
        }
        let ghost listed = items@;
        let made = Instance::new(items, input.1);
        proof {
            assert(models(listed) =~= pair_models(pairs@));
            if let Err(InstanceError::NonPositiveWeight(first)) = made {
                assert(listed[first as int].model().weight == 0);
                assert forall|i: int| 0 <= i < first implies (#[trigger] pairs[i]).1 > 0 by {
                    assert(listed[i].model().weight > 0);
                }
            }
        }
        made
    }
}

/// The models of the items that a list of `(cost, weight)` pairs describes.
pub open spec fn pair_models(pairs: Seq<(u32, u32)>) -> Seq<ItemModel> {
    Seq::new(pairs.len(), |i: int| ItemModel { cost: pairs[i].0, weight: pairs[i].1 })
}

impl<I: Item> OptProblemKind for Instance<I> {
    type Cost = u64;

    type Solution = Solution;
}

/// What an algorithm returns for a knapsack instance.
#[derive(Clone, Debug)]
pub enum Solution {
    /// The indices of the packed items.
    Solved { packed_items: Vec<usize> },
    /// No selection fits.
    Infeasible,
    /// No solution was found; the text says why.
    Failed(String),
}

impl Solution {
    /// Whether a selection was found.
    pub fn is_solved(&self) -> (solved: bool)
        ensures
            solved == (self is Solved),
    {
        match self {
            Solution::Solved { .. } => true,
            _ => false,
        }
    }

    /// The indices of the packed items, where a selection was found.
    pub fn as_solution(self) -> (packed: Option<Vec<usize>>)
        ensures
            packed == match self {
                Solution::Solved { packed_items } => Some(packed_items),
                _ => None::<Vec<usize>>,
            },
    {
        match self {
            Solution::Solved { packed_items } => Some(packed_items),
            _ => None,
        }
    }

    /// The solution names `packed` as its packed items.
    pub open spec fn packs(&self, packed: Seq<usize>) -> bool {
        self matches Solution::Solved { packed_items } && packed_items@ == packed
    }
}

impl<I: Item> SolutionKind<Instance<I>> for Solution {
    type Cost = u64;

    /// The sum of the costs of the packed items. There is none where the
    /// solution is not `Solved`, where an index names no item, and where the
    /// sum does not fit the cost type.
    open spec fn cost_spec(&self, instance: &Instance<I>) -> Option<u64> {
        match self {
            Solution::Solved { packed_items } => if in_range(
                instance@.items.len(),
                packed_items@,
            ) && cost_of(instance@.items, packed_items@) <= u64::MAX {
                Some(cost_of(instance@.items, packed_items@) as u64)
            } else {
                None
            },
            _ => None,
        }
    }

    fn cost(&self, instance: &Instance<I>) -> (cost: Option<u64>) {
        match self {
            Solution::Solved { packed_items } => total_cost(instance.items(), packed_items),
            _ => None,
        }
    }
}

/// The sum of the costs of the items of `items` that `packed` names, where
/// every index names an item and the sum fits.
fn total_cost<I: Item>(items: &[I], packed: &Vec<usize>) -> (cost: Option<u64>)
    ensures
        cost == if in_range(items@.len(), packed@) && cost_of(models(items@), packed@) <= u64::MAX {
            Some(cost_of(models(items@), packed@) as u64)
        } else {
            None
        },
{
    let ghost listed = models(items@);
    let mut total: u64 = 0;
    let mut k: usize = 0;
    while k < packed.len()
        invariant
            k <= packed.len(),
            listed == models(items@),
            in_range(items@.len(), packed@.take(k as int)),
            total == cost_of(listed, packed@.take(k as int)),
        decreases packed.len() - k,
    {
        let index = packed[k];
        proof {
            lemma_sum_step(listed, packed@, k as int);
            lemma_sum_take_monotone(listed, packed@, k as int + 1);
        }
        if index >= items.len() {
            assert(!(packed@[k as int] < items@.len()));
            return None;
        }
        assert(listed[index as int] == items@[index as int].model());
        match total.checked_add(*items[index].cost() as u64) {
            Some(sum) => {
                total = sum;
            },
            None => {
                return None;
            },
        }
        k += 1;
        assert forall|l: int| 0 <= l < k implies (#[trigger] packed@.take(k as int)[l])
            < items@.len() by {
            if l < k - 1 {
                assert(packed@.take(k - 1)[l] == packed@[l]);
            }
        }
    }
    proof {
        assert(packed@.take(k as int) =~= packed@);
    }
    Some(total)
}

/// One more index adds its item's weight and cost to the sums of a prefix.
pub proof fn lemma_sum_step(items: Seq<ItemModel>, packed: Seq<usize>, k: int)
    requires
        0 <= k < packed.len(),
    ensures
        weight_of(items, packed.take(k + 1)) == weight_of(items, packed.take(k)) + (if packed[k]
            < items.len() {
            items[packed[k] as int].weight
        } else {
            0u32
        }),
        cost_of(items, packed.take(k + 1)) == cost_of(items, packed.take(k)) + (if packed[k]
            < items.len() {
            items[packed[k] as int].cost
        } else {
            0u32
        }),
{
    assert(packed.take(k + 1).drop_last() =~= packed.take(k));
    assert(packed.take(k + 1).last() == packed[k]);
}

/// The sums of a prefix are at most the sums of the whole.
pub proof fn lemma_sum_take_monotone(items: Seq<ItemModel>, packed: Seq<usize>, k: int)
    requires
        0 <= k <= packed.len(),
    ensures
        weight_of(items, packed.take(k)) <= weight_of(items, packed),
        cost_of(items, packed.take(k)) <= cost_of(items, packed),
    decreases packed.len() - k,
{
    if k == packed.len() {
        assert(packed.take(k) =~= packed);
    } else {
        lemma_sum_step(items, packed, k);
        lemma_sum_take_monotone(items, packed, k + 1);
    }
}

/// Two selections in canonical form that name the same items are the same.
pub proof fn lemma_canonical_unique(n: nat, one: Seq<usize>, other: Seq<usize>)
    requires
        canonical(n, one),
        canonical(n, other),
        forall|i: int| 0 <= i < n ==> (names(one, i) <==> names(other, i)),
    ensures
        one == other,
    decreases n,
{
    if n == 0 {
        if one.len() > 0 {
            assert(one[0] < 0);
        }
        if other.len() > 0 {
            assert(other[0] < 0);
        }
        assert(one =~= other);
    } else {
        let top = (n - 1) as int;
        let has = names(one, top);
        let one_rest = if has {
            one.drop_last()
        } else {
            one
        };
        let other_rest = if has {
            other.drop_last()
        } else {
            other
        };
        lemma_top_is_last(n, one);
        lemma_top_is_last(n, other);
        assert forall|i: int| 0 <= i < n - 1 implies (names(one_rest, i) <==> names(other_rest, i)) by {
            lemma_rest_names(n, one, i);
            lemma_rest_names(n, other, i);
        }
        lemma_canonical_unique((n - 1) as nat, one_rest, other_rest);
        if has {
            assert(one =~= one_rest.push(one.last()));
            assert(other =~= other_rest.push(other.last()));
        }
    }
}

/// In a selection in canonical form among `n` items, the item `n - 1` is
/// the last if it is named at all, and the others lie among the first
/// `n - 1` items.
proof fn lemma_top_is_last(n: nat, packed: Seq<usize>)
    requires
        n > 0,
        canonical(n, packed),
    ensures
        names(packed, n - 1) ==> packed.len() > 0 && packed.last() == n - 1 && canonical(
            (n - 1) as nat,
            packed.drop_last(),
        ),
        !names(packed, n - 1) ==> canonical((n - 1) as nat, packed),
{
    if names(packed, n - 1) {
        let k = choose|k: int| 0 <= k < packed.len() && packed[k] == n - 1;
        if k < packed.len() - 1 {
            assert(packed[k] < packed[packed.len() - 1]);
        }
        let rest = packed.drop_last();
        assert forall|l: int| 0 <= l < rest.len() implies (#[trigger] rest[l]) < n - 1 by {
            assert(rest[l] == packed[l]);
            assert(packed[l] < packed[packed.len() - 1]);
        }
    } else {
        assert forall|l: int| 0 <= l < packed.len() implies (#[trigger] packed[l]) < n - 1 by {
            if packed[l] == n - 1 {
                assert(names(packed, n - 1));
            }
        }
    }
}

/// An item below `n - 1` is named by a selection among `n` items where it
/// is named by the selection without the item `n - 1`.
proof fn lemma_rest_names(n: nat, packed: Seq<usize>, i: int)
    requires
        n > 0,
        canonical(n, packed),
        0 <= i < n - 1,
    ensures
        names(packed, i) <==> names(
            if names(packed, n - 1) {
                packed.drop_last()
            } else {
                packed
            },
            i,
        ),
{
    lemma_top_is_last(n, packed);
    if names(packed, n - 1) {
        let rest = packed.drop_last();
        if names(packed, i) {
            let k = choose|k: int| 0 <= k < packed.len() && packed[k] == i;
            assert(rest[k] == i);
        }
        if names(rest, i) {
            let k = choose|k: int| 0 <= k < rest.len() && rest[k] == i;
            assert(packed[k] == i);
        }
    }
}

} // verus!
