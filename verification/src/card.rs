use vstd::prelude::*;

verus! {

/// A two-sided game token: a distinguishing front and a common back.
#[derive(Debug, PartialEq, Eq)]
pub struct Card<FrontType, BackType> {
    front: FrontType,
    back: BackType,
}

impl<FrontType, BackType> Card<FrontType, BackType> {
    /// The front value.
    pub closed spec fn spec_front(&self) -> FrontType {
        self.front
    }

    /// The back value.
    pub closed spec fn spec_back(&self) -> BackType {
        self.back
    }

    pub fn new(front: FrontType, back: BackType) -> (r: Self)
        ensures
            r.spec_front() == front,
            r.spec_back() == back,
    {
        Self { front, back }
    }

    pub fn front(&self) -> (r: &FrontType)
        ensures
            *r == self.spec_front(),
    {
        &self.front
    }

    pub fn front_mut(&mut self) -> (r: &mut FrontType)
        ensures
            *r == old(self).spec_front(),
            final(self).spec_front() == *final(r),
            final(self).spec_back() == old(self).spec_back(),
    {
        &mut self.front
    }

    pub fn back(&self) -> (r: &BackType)
        ensures
            *r == self.spec_back(),
    {
        &self.back
    }

    pub fn back_mut(&mut self) -> (r: &mut BackType)
        ensures
            *r == old(self).spec_back(),
            final(self).spec_back() == *final(r),
            final(self).spec_front() == old(self).spec_front(),
    {
        &mut self.back
    }
}

/// The fronts a card-count list expands to, in order: each front repeated
/// its number of copies.
pub open spec fn expanded_fronts<FrontType>(front: Seq<(FrontType, usize)>) -> Seq<FrontType>
    decreases front.len(),
{
    if front.len() == 0 {
        Seq::empty()
    } else {
        Seq::new(front[0].1 as nat, |i: int| front[0].0) + expanded_fronts(front.skip(1))
    }
}

/// Appending one entry appends its copies to the expansion.
proof fn lemma_expanded_fronts_push<FrontType>(
    front: Seq<(FrontType, usize)>,
    entry: (FrontType, usize),
)
    ensures
        expanded_fronts(front.push(entry)) == expanded_fronts(front) + Seq::new(
            entry.1 as nat,
            |i: int| entry.0,
        ),
    decreases front.len(),
{
    let tail = Seq::new(entry.1 as nat, |i: int| entry.0);
    if front.len() == 0 {
        assert(front.push(entry)[0] == entry);
        assert(front.push(entry).skip(1) =~= Seq::<(FrontType, usize)>::empty());
        assert(expanded_fronts(Seq::<(FrontType, usize)>::empty())
            == Seq::<FrontType>::empty());
        let lhs = expanded_fronts(front.push(entry));
        assert(lhs == Seq::new(entry.1 as nat, |i: int| front.push(entry)[0].0)
            + Seq::<FrontType>::empty());
        assert forall|i: int| 0 <= i < lhs.len() implies lhs[i] == (expanded_fronts(front)
            + tail)[i] by {
            assert(lhs[i] == entry.0);
            assert((expanded_fronts(front) + tail)[i] == tail[i]);
        }
        assert(lhs =~= expanded_fronts(front) + tail);
    } else {
        assert(front.push(entry).skip(1) =~= front.skip(1).push(entry));
        assert(front.push(entry)[0] == front[0]);
        lemma_expanded_fronts_push(front.skip(1), entry);
        assert(expanded_fronts(front.push(entry)) =~= expanded_fronts(front) + tail);
    }
}

/// Collects fronts with their copy counts over a fixed back, and expands
/// them into a deck of cards.
pub struct CardSetBuilder<FrontType, BackType> where FrontType: Clone, BackType: Clone {
    back: BackType,
    front: Vec<(FrontType, usize)>,
}

impl<FrontType, BackType> CardSetBuilder<FrontType, BackType> where
    FrontType: Clone,
    BackType: Clone,
 {
    /// The common back value.
    pub closed spec fn spec_back(&self) -> BackType {
        self.back
    }

    /// The collected fronts with their copy counts, in order.
    pub closed spec fn spec_front_list(&self) -> Seq<(FrontType, usize)> {
        self.front@
    }

    pub fn new(back: BackType) -> (r: Self)
        ensures
            r.spec_back() == back,
            r.spec_front_list() == Seq::<(FrontType, usize)>::empty(),
    {
        Self { back, front: Vec::new() }
    }

    pub fn with_cards(self, front: FrontType, copies: usize) -> (r: Self)
        ensures
            r.spec_back() == self.spec_back(),
            r.spec_front_list() == self.spec_front_list().push((front, copies)),
    {
        let mut s = self;
        s.front.push((front, copies));
        s
    }

    /// One card per configured copy, in collection order, each front and
    /// back cloned from the configured values.
    pub fn generate_deck(&self) -> (r: Vec<Card<FrontType, BackType>>)
        ensures
            r@.len() == expanded_fronts(self.spec_front_list()).len(),
            forall|i: int|
                0 <= i < r@.len() ==> vstd::pervasive::cloned(
                    expanded_fronts(self.spec_front_list())[i],
                    (#[trigger] r@[i]).spec_front(),
                ) && vstd::pervasive::cloned(self.spec_back(), r@[i].spec_back()),
    {
        let ghost front_list = self.spec_front_list();
        let mut deck: Vec<Card<FrontType, BackType>> = Vec::new();
        let mut idx: usize = 0;
        while idx < self.front.len()
            invariant
                front_list == self.spec_front_list(),
                self.spec_front_list() == self.front@,
                idx <= self.front@.len(),
                deck@.len() == expanded_fronts(front_list.take(idx as int)).len(),
                forall|i: int|
                    0 <= i < deck@.len() ==> vstd::pervasive::cloned(
                        expanded_fronts(front_list.take(idx as int))[i],
                        (#[trigger] deck@[i]).spec_front(),
                    ) && vstd::pervasive::cloned(self.spec_back(), deck@[i].spec_back()),
            decreases self.front@.len() - idx,
        {
            let entry = &self.front[idx];
            let copies = entry.1;
            let ghost prefix = expanded_fronts(front_list.take(idx as int));
            let ghost entry_fronts = Seq::new(copies as nat, |i: int| front_list[idx as int].0);
            proof {
                assert(front_list.take(idx + 1) =~= front_list.take(idx as int).push(
                    front_list[idx as int],
                ));
                lemma_expanded_fronts_push(front_list.take(idx as int), front_list[idx as int]);
            }
            let mut n: usize = 0;
            while n < copies
                invariant
                    front_list == self.spec_front_list(),
                    self.spec_front_list() == self.front@,
                    idx < self.front@.len(),
                    copies == front_list[idx as int].1,
                    entry == front_list[idx as int],
                    prefix == expanded_fronts(front_list.take(idx as int)),
                    entry_fronts == Seq::new(copies as nat, |i: int| front_list[idx as int].0),
                    n <= copies,
                    deck@.len() == prefix.len() + n,
                    forall|i: int|
                        0 <= i < prefix.len() ==> vstd::pervasive::cloned(
                            prefix[i],
                            (#[trigger] deck@[i]).spec_front(),
                        ) && vstd::pervasive::cloned(self.spec_back(), deck@[i].spec_back()),
                    forall|i: int|
                        prefix.len() <= i < deck@.len() ==> vstd::pervasive::cloned(
                            front_list[idx as int].0,
                            (#[trigger] deck@[i]).spec_front(),
                        ) && vstd::pervasive::cloned(self.spec_back(), deck@[i].spec_back()),
                decreases copies - n,
            {
                deck.push(Card::new(entry.0.clone(), self.back.clone()));
                n = n + 1;
            }
            idx = idx + 1;
            proof {
                assert(expanded_fronts(front_list.take(idx as int)) == prefix + entry_fronts);
                assert forall|i: int|
                    0 <= i < deck@.len() implies vstd::pervasive::cloned(
                    expanded_fronts(front_list.take(idx as int))[i],
                    (#[trigger] deck@[i]).spec_front(),
                ) && vstd::pervasive::cloned(self.spec_back(), deck@[i].spec_back()) by {
                    if i < prefix.len() {
                        assert(expanded_fronts(front_list.take(idx as int))[i] == prefix[i]);
                    } else {
                        assert(expanded_fronts(front_list.take(idx as int))[i] == entry_fronts[i
                            - prefix.len()]);
                    }
                }
            }
        }
        proof {
            assert(front_list.take(front_list.len() as int) =~= front_list);
        }
        deck
    }
}

} // verus!
