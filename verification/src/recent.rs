//! Fixed-size move-to-front (MRU) list used by the match model.
use vstd::prelude::*;

verus! {

/// A fixed-length list kept in most-recently-used order.
pub struct RecentList<T: Copy> {
    slots: Vec<T>,
}

impl<T: Copy> View for RecentList<T> {
    type V = Seq<T>;

    closed spec fn view(&self) -> Seq<T> {
        self.slots@
    }
}

/// The list after `value` is put in front and the oldest entry dropped.
pub open spec fn pushed<T>(s: Seq<T>, value: T) -> Seq<T> {
    seq![value] + s.take(s.len() - 1)
}

/// The list after the entry at `index` is moved to the front.
pub open spec fn promoted<T>(s: Seq<T>, index: int) -> Seq<T> {
    seq![s[index]] + s.take(index) + s.skip(index + 1)
}

impl<T: Copy> RecentList<T> {
    /// A list holding `items`, most recent first.
    pub fn new(items: Vec<T>) -> (r: Self)
        ensures
            r@ == items@,
    {
        RecentList { slots: items }
    }

    /// Insert `value` at the front, shifting the rest back and dropping the
    /// oldest entry.
    pub fn push(&mut self, value: T)
        requires
            old(self)@.len() >= 1,
        ensures
            final(self)@ == pushed(old(self)@, value),
    {
        let n = self.slots.len();
        let mut i: usize = n - 1;
        while i > 0
            invariant
                n == self.slots@.len(),
                n >= 1,
                i < n,
                forall|k: int| 0 <= k <= i ==> self.slots@[k] == old(self)@[k],
                forall|k: int| i < k < n ==> self.slots@[k] == old(self)@[k - 1],
            decreases i,
        {
            let v = self.slots[i - 1];
            self.slots.set(i, v);
            i -= 1;
        }
        self.slots.set(0, value);
        assert(self.slots@ =~= pushed(old(self)@, value));
    }

    /// Return the entry at `index` and move it to the front.
    pub fn promote(&mut self, index: usize) -> (r: T)
        requires
            index < old(self)@.len(),
        ensures
            r == old(self)@[index as int],
            final(self)@ == promoted(old(self)@, index as int),
    {
        let value = self.slots[index];
        let n = self.slots.len();
        let mut i: usize = index;
        while i > 0
            invariant
                n == self.slots@.len(),
                index < n,
                i <= index,
                forall|k: int| 0 <= k <= i ==> self.slots@[k] == old(self)@[k],
                forall|k: int| i < k <= index ==> self.slots@[k] == old(self)@[k - 1],
                forall|k: int| index < k < n ==> self.slots@[k] == old(self)@[k],
                value == old(self)@[index as int],
            decreases i,
        {
            let v = self.slots[i - 1];
            self.slots.set(i, v);
            i -= 1;
        }
        self.slots.set(0, value);
        assert(self.slots@ =~= promoted(old(self)@, index as int));
        value
    }
}

/// Law: pushing keeps the number of slots.
pub proof fn lemma_push_keeps_len<T>(s: Seq<T>, value: T)
    requires
        s.len() >= 1,
    ensures
        pushed(s, value).len() == s.len(),
        pushed(s, value)[0] == value,
{
}

/// Law: promoting only reorders the entries: the same entries, each as often,
/// with the promoted one in front.
pub proof fn lemma_promote_permutes<T>(s: Seq<T>, index: int)
    requires
        0 <= index < s.len(),
    ensures
        promoted(s, index).len() == s.len(),
        promoted(s, index)[0] == s[index],
        promoted(s, index).to_multiset() == s.to_multiset(),
{
    broadcast use vstd::seq_lib::group_to_multiset_ensures;

    let front = seq![s[index]];
    let pre = s.take(index);
    let post = s.skip(index + 1);
    assert(s =~= pre + (front + post));
    vstd::seq_lib::lemma_multiset_commutative(pre, front + post);
    vstd::seq_lib::lemma_multiset_commutative(front, post);
    vstd::seq_lib::lemma_multiset_commutative(front + pre, post);
    vstd::seq_lib::lemma_multiset_commutative(front, pre);
    vstd::seq_lib::lemma_multiset_commutative(pre, post);
    assert(promoted(s, index) =~= (front + pre) + post);
    assert((front + post).to_multiset() == front.to_multiset().add(post.to_multiset()));
    assert((front + pre).to_multiset() == front.to_multiset().add(pre.to_multiset()));
    assert(front.to_multiset().add(pre.to_multiset()).add(post.to_multiset())
        =~= pre.to_multiset().add(front.to_multiset().add(post.to_multiset())));
}

/// Law: promoting the front entry leaves the list unchanged.
pub proof fn lemma_promote_front<T>(s: Seq<T>)
    requires
        s.len() >= 1,
    ensures
        promoted(s, 0) == s,
{
    assert(promoted(s, 0) =~= s);
}

} // verus!
