//! Sets that keep their items in increasing order.
use vstd::prelude::*;

verus! {

/// Where one item stands against another.
#[derive(Clone, Copy, Debug, PartialEq, Eq, Structural)]
pub enum Rank {
    Before,
    Same,
    After,
}

/// Items with an order by which a set can be kept. Items that rank equal
/// need not be the same, nor need ranking equal be transitive.
pub trait Ranked: Sized {
    /// How `self` ranks against `other`.
    spec fn ranked(self, other: Self) -> Rank;

    /// An item ranks the same as itself.
    proof fn ranked_itself(self)
        ensures
            self.ranked(self) == Rank::Same,
    ;

    /// The order is the same from both sides.
    proof fn ranked_both_ways(self, other: Self)
        ensures
            self.ranked(other) == Rank::Before <==> other.ranked(self) == Rank::After,
            self.ranked(other) == Rank::Same <==> other.ranked(self) == Rank::Same,
    ;

    /// What is below something smaller is below.
    proof fn ranked_through(self, middle: Self, other: Self)
        requires
            self.ranked(middle) == Rank::Before,
            middle.ranked(other) == Rank::Before,
        ensures
            self.ranked(other) == Rank::Before,
    ;

    /// Ranks `self` against `other`.
    fn rank(&self, other: &Self) -> (r: Rank)
        ensures
            r == self.ranked(*other),
    ;
}

/// Each item ranks below every later one.
pub open spec fn increasing<T: Ranked>(items: Seq<T>) -> bool {
    forall|i: int, j: int|
        0 <= i < j < items.len() ==> #[trigger] items[i].ranked(#[trigger] items[j])
            == Rank::Before
}

/// Some item ranks the same as `item`.
pub open spec fn has_same<T: Ranked>(items: Seq<T>, item: T) -> bool {
    exists|i: int| 0 <= i < items.len() && item.ranked(#[trigger] items[i]) == Rank::Same
}

/// How many items at the front rank below `item`.
pub open spec fn position<T: Ranked>(items: Seq<T>, item: T) -> int
    decreases items.len(),
{
    if items.len() > 0 && item.ranked(items[0]) == Rank::After {
        1 + position(items.drop_first(), item)
    } else {
        0
    }
}

/// `items` with `item` in its place, or as they are where an equal item is
/// there already.
pub open spec fn inserted<T: Ranked>(items: Seq<T>, item: T) -> Seq<T> {
    let p = position(items, item);
    if p < items.len() && item.ranked(items[p]) == Rank::Same {
        items
    } else {
        items.insert(p, item)
    }
}

/// The items of `news` put one after the other into `items`.
pub open spec fn all_inserted<T: Ranked>(items: Seq<T>, news: Seq<T>) -> Seq<T>
    decreases news.len(),
{
    if news.len() == 0 {
        items
    } else {
        inserted(all_inserted(items, news.drop_last()), news.last())
    }
}

/// The position is where the items stop ranking below `item`.
pub proof fn lemma_position<T: Ranked>(items: Seq<T>, item: T, p: int)
    requires
        0 <= p <= items.len(),
        forall|i: int| 0 <= i < p ==> item.ranked(#[trigger] items[i]) == Rank::After,
        p < items.len() ==> item.ranked(items[p]) != Rank::After,
    ensures
        position(items, item) == p,
    decreases items.len(),
{
    if p > 0 {
        assert(items[0] == items[0]);
        let tail = items.drop_first();
        assert forall|i: int| 0 <= i < p - 1 implies item.ranked(#[trigger] tail[i])
            == Rank::After by {
            assert(tail[i] == items[i + 1]);
        }
        lemma_position(tail, item, p - 1);
    }
}

/// Insertion keeps the order.
pub proof fn lemma_inserted_increasing<T: Ranked>(items: Seq<T>, item: T)
    requires
        increasing(items),
    ensures
        increasing(inserted(items, item)),
{
    lemma_position_bounds(items, item);
    let p = position(items, item);
    let news = inserted(items, item);
    if !(p < items.len() && item.ranked(items[p]) == Rank::Same) {
        assert forall|i: int, j: int| 0 <= i < j < news.len() implies #[trigger] news[i].ranked(
            #[trigger] news[j],
        ) == Rank::Before by {
            if j == p {
                items[i].ranked_both_ways(item);
            } else if i == p {
                item.ranked_both_ways(items[p]);
                if j > p + 1 {
                    item.ranked_through(items[p], items[j - 1]);
                }
            }
        }
    }
}

/// An item stays out exactly where one that ranks the same is in the set.
pub proof fn lemma_inserted_unless_same<T: Ranked>(items: Seq<T>, item: T)
    requires
        increasing(items),
    ensures
        has_same(items, item) ==> inserted(items, item) == items,
        !has_same(items, item) ==> inserted(items, item) == items.insert(
            position(items, item),
            item,
        ) && inserted(items, item).contains(item),
        0 <= position(items, item) <= items.len(),
{
    lemma_position_bounds(items, item);
    let p = position(items, item);
    if p < items.len() && item.ranked(items[p]) == Rank::Before {
        assert forall|i: int| 0 <= i < items.len() implies item.ranked(#[trigger] items[i])
            != Rank::Same by {
            if i > p {
                item.ranked_through(items[p], items[i]);
            }
        }
    }
    if !has_same(items, item) {
        assert(items.insert(p, item)[p] == item);
    }
}

/// Putting in an item again changes nothing.
pub proof fn law_inserted_again<T: Ranked>(items: Seq<T>, item: T)
    requires
        increasing(items),
    ensures
        inserted(inserted(items, item), item) == inserted(items, item),
{
    let all = inserted(items, item);
    lemma_inserted_increasing(items, item);
    lemma_inserted_unless_same(items, item);
    lemma_inserted_unless_same(all, item);
    if !has_same(items, item) {
        item.ranked_itself();
        assert(item.ranked(all[position(items, item)]) == Rank::Same);
    }
}

/// Putting in several items keeps the order, keeps every item that was there,
/// and leaves one that ranks the same as each new item.
pub proof fn lemma_all_inserted<T: Ranked>(items: Seq<T>, news: Seq<T>)
    requires
        increasing(items),
    ensures
        increasing(all_inserted(items, news)),
        forall|i: int|
            0 <= i < items.len() ==> all_inserted(items, news).contains(#[trigger] items[i]),
        forall|i: int|
            0 <= i < news.len() ==> has_same(all_inserted(items, news), #[trigger] news[i]),
        forall|i: int|
            0 <= i < all_inserted(items, news).len() ==> {
                let item = #[trigger] all_inserted(items, news)[i];
                items.contains(item) || news.contains(item)
            },
    decreases news.len(),
{
    if news.len() == 0 {
        assert forall|i: int| 0 <= i < all_inserted(items, news).len() implies items.contains(
            #[trigger] all_inserted(items, news)[i],
        ) by {
            assert(items[i] == all_inserted(items, news)[i]);
        }
    } else {
        let most = all_inserted(items, news.drop_last());
        let all = all_inserted(items, news);
        let item = news.last();
        lemma_all_inserted(items, news.drop_last());
        lemma_inserted_increasing(most, item);
        lemma_inserted_unless_same(most, item);
        lemma_kept(most, item);
        assert forall|i: int| 0 <= i < items.len() implies all.contains(#[trigger] items[i]) by {
            assert(most.contains(items[i]));
        }
        assert forall|i: int| 0 <= i < news.len() implies has_same(all, #[trigger] news[i]) by {
            if i < news.len() - 1 {
                assert(news.drop_last()[i] == news[i]);
                let j = choose|j: int|
                    0 <= j < most.len() && news[i].ranked(#[trigger] most[j]) == Rank::Same;
                assert(most.contains(most[j]));
                let k = choose|k: int| 0 <= k < all.len() && all[k] == most[j];
                assert(news[i].ranked(all[k]) == Rank::Same);
            } else if has_same(most, item) {
                assert(all == most);
            } else {
                item.ranked_itself();
                assert(item.ranked(all[position(most, item)]) == Rank::Same);
            }
        }
        assert forall|i: int| 0 <= i < all.len() implies {
            let item = #[trigger] all[i];
            items.contains(item) || news.contains(item)
        } by {
            if has_same(most, item) {
                assert(all[i] == most[i]);
            } else {
                let p = position(most, item);
                if i == p {
                    assert(news[news.len() - 1] == all[i]);
                } else {
                    let k = if i < p {
                        i
                    } else {
                        i - 1
                    };
                    assert(all[i] == most[k]);
                }
            }
            if news.drop_last().contains(all[i]) {
                let k = choose|k: int|
                    0 <= k < news.drop_last().len() && news.drop_last()[k] == all[i];
                assert(news[k] == all[i]);
            }
        }
    }
}

/// Putting in `a` and then `b` is putting in both.
pub proof fn lemma_inserted_in_turn<T: Ranked>(items: Seq<T>, a: Seq<T>, b: Seq<T>)
    ensures
        all_inserted(items, a + b) == all_inserted(all_inserted(items, a), b),
    decreases b.len(),
{
    if b.len() == 0 {
        assert(a + b =~= a);
    } else {
        lemma_inserted_in_turn(items, a, b.drop_last());
        assert((a + b).drop_last() =~= a + b.drop_last());
        assert((a + b).last() == b.last());
    }
}

/// Insertion takes nothing out.
pub proof fn lemma_kept<T: Ranked>(items: Seq<T>, item: T)
    requires
        increasing(items),
    ensures
        forall|old_item: T| #[trigger]
            items.contains(old_item) ==> inserted(items, item).contains(old_item),
{
    lemma_position_bounds(items, item);
    let p = position(items, item);
    let all = inserted(items, item);
    assert forall|old_item: T| #[trigger] items.contains(old_item) implies all.contains(
        old_item,
    ) by {
        let i = choose|i: int| 0 <= i < items.len() && items[i] == old_item;
        if all != items {
            if i < p {
                assert(all[i] == old_item);
            } else {
                assert(all[i + 1] == old_item);
            }
        }
    }
}

/// After insertion the set holds what it held, and the new item where it did
/// not stay out.
pub proof fn lemma_inserted_holds<T: Ranked>(items: Seq<T>, item: T, x: T)
    requires
        increasing(items),
    ensures
        inserted(items, item).contains(x) <==> items.contains(x) || (x == item && !has_same(
            items,
            item,
        )),
{
    let all = inserted(items, item);
    let p = position(items, item);
    lemma_inserted_unless_same(items, item);
    lemma_kept(items, item);
    if all.contains(x) && !has_same(items, item) {
        let i = choose|i: int| 0 <= i < all.len() && all[i] == x;
        if i < p {
            assert(items[i] == x);
        } else if i > p {
            assert(items[i - 1] == x);
        }
    }
}

/// What the position separates.
pub proof fn lemma_position_bounds<T: Ranked>(items: Seq<T>, item: T)
    ensures
        0 <= position(items, item) <= items.len(),
        forall|i: int|
            0 <= i < position(items, item) ==> item.ranked(#[trigger] items[i])
                == Rank::After,
        position(items, item) < items.len() ==> item.ranked(items[position(items, item)])
            != Rank::After,
    decreases items.len(),
{
    if items.len() > 0 && item.ranked(items[0]) == Rank::After {
        let tail = items.drop_first();
        lemma_position_bounds(tail, item);
        assert forall|i: int| 0 <= i < position(items, item) implies item.ranked(
            #[trigger] items[i],
        ) == Rank::After by {
            if i > 0 {
                assert(items[i] == tail[i - 1]);
            }
        }
    }
}

/// A set in increasing order. Of items that rank equal the first one stays.
#[derive(Debug)]
pub struct OrderedSet<T: Ranked> {
    items: Vec<T>,
}

impl<T: Ranked> View for OrderedSet<T> {
    type V = Seq<T>;

    closed spec fn view(&self) -> Seq<T> {
        self.items@
    }
}

impl<T: Ranked> OrderedSet<T> {
    #[verifier::type_invariant]
    spec fn well_formed(self) -> bool {
        increasing(self.items@)
    }

    /// The empty set.
    pub fn new() -> (set: Self)
        ensures
            set@ == Seq::<T>::empty(),
    {
        OrderedSet { items: Vec::new() }
    }

    /// The set of items that are in order already.
    pub(crate) fn from_increasing(items: Vec<T>) -> (set: Self)
        requires
            increasing(items@),
        ensures
            set@ == items@,
    {
        OrderedSet { items }
    }

    /// Adds `item`, unless one that ranks equal is there: says which.
    pub fn insert(&mut self, item: T) -> (added: bool)
        ensures
            final(self)@ == inserted(old(self)@, item),
            added == !has_same(old(self)@, item),
    {
        proof {
            use_type_invariant(&*self);
        }
        let ghost before = self.items@;
        let mut p: usize = 0;
        while p < self.items.len()
            invariant_except_break
                self.items@ == before,
                p <= before.len(),
                forall|i: int| 0 <= i < p ==> item.ranked(#[trigger] before[i]) == Rank::After,
            ensures
                self.items@ == before,
                p <= before.len(),
                forall|i: int| 0 <= i < p ==> item.ranked(#[trigger] before[i]) == Rank::After,
                p < before.len() ==> item.ranked(before[p as int]) != Rank::After,
            decreases before.len() - p,
        {
            if !matches!(item.rank(&self.items[p]), Rank::After) {
                break;
            }
            p = p + 1;
        }
        proof {
            lemma_position(before, item, p as int);
            lemma_inserted_increasing(before, item);
            lemma_inserted_unless_same(before, item);
        }
        if p < self.items.len() && matches!(item.rank(&self.items[p]), Rank::Same) {
            return false;
        }
        let mut items: Vec<T> = Vec::new();
        std::mem::swap(&mut items, &mut self.items);
        items.insert(p, item);
        self.items = items;
        true
    }

    /// The items in order.
    pub fn as_vec(&self) -> (items: &Vec<T>)
        ensures
            items@ == self@,
            increasing(self@),
    {
        proof {
            use_type_invariant(self);
        }
        &self.items
    }

    /// The items in order, without the set.
    pub fn into_vec(self) -> (items: Vec<T>)
        ensures
            items@ == self@,
            increasing(self@),
    {
        proof {
            use_type_invariant(&self);
        }
        self.items
    }
}

} // verus!
