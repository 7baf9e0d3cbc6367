use vstd::prelude::*;

verus! {

/// Strictly ascending, hence free of duplicates.
pub open spec fn ascending(s: Seq<u32>) -> bool {
    forall|i: int, j: int| 0 <= i < j < s.len() ==> s[i] < s[j]
}

/// Membership in the tail of an ascending sequence: every member but the first.
proof fn lemma_tail_members(a: Seq<u32>)
    requires
        ascending(a),
        a.len() > 0,
    ensures
        forall|x: u32| #[trigger] a.drop_first().to_set().contains(x) <==> (a.to_set().contains(x) && x != a[0]),
{
    assert forall|x: u32| #[trigger] a.drop_first().to_set().contains(x) <==> (a.to_set().contains(x) && x != a[0]) by {
        if a.drop_first().to_set().contains(x) {
            let k = choose|k: int| 0 <= k < a.len() - 1 && a.drop_first()[k] == x;
            assert(a[k + 1] == x);
            assert(a[0] < a[k + 1]);
        }
        if a.to_set().contains(x) && x != a[0] {
            let k = choose|k: int| 0 <= k < a.len() && a[k] == x;
            assert(k > 0);
            assert(a.drop_first()[k - 1] == x);
        }
    }
}

/// An ascending sequence is determined by its members.
pub proof fn lemma_ascending_determined(a: Seq<u32>, b: Seq<u32>)
    requires
        ascending(a),
        ascending(b),
        a.to_set() == b.to_set(),
    ensures
        a == b,
    decreases a.len(),
{
    if a.len() == 0 {
        if b.len() > 0 {
            assert(b.to_set().contains(b[0]));
        }
        assert(a =~= b);
    } else {
        assert(a.to_set().contains(a[0]));
        assert(b.len() > 0);
        assert(b.to_set().contains(b[0]));
        let i = choose|i: int| 0 <= i < a.len() && a[i] == b[0];
        let j = choose|j: int| 0 <= j < b.len() && b[j] == a[0];
        if i > 0 {
            assert(a[0] < a[i]);
        }
        if j > 0 {
            assert(b[0] < b[j]);
        }
        assert(a[0] == b[0]);
        lemma_tail_members(a);
        lemma_tail_members(b);
        assert(a.drop_first().to_set() =~= b.drop_first().to_set());
        lemma_ascending_determined(a.drop_first(), b.drop_first());
        assert(a =~= seq![a[0]] + a.drop_first());
        assert(b =~= seq![b[0]] + b.drop_first());
    }
}

/// An ordered set of slot indexes, kept as an ascending vector.
pub struct SlotSet {
    items: Vec<u32>,
}

impl View for SlotSet {
    type V = Seq<u32>;

    /// The members in ascending order.
    closed spec fn view(&self) -> Seq<u32> {
        self.items@
    }
}

impl SlotSet {
    pub open spec fn wf(&self) -> bool {
        ascending(self@)
    }

    /// The members as a set.
    pub open spec fn members(&self) -> Set<u32> {
        self@.to_set()
    }

    pub fn new() -> (r: SlotSet)
        ensures
            r.wf(),
            r@ == Seq::<u32>::empty(),
    {
        SlotSet { items: Vec::new() }
    }

    pub fn len(&self) -> (r: usize)
        ensures
            r == self@.len(),
    {
        self.items.len()
    }

    /// The member at position `i` in ascending order.
    pub fn get(&self, i: usize) -> (r: u32)
        requires
            i < self@.len(),
        ensures
            r == self@[i as int],
    {
        self.items[i]
    }

    /// The members in ascending order.
    pub fn to_vec(&self) -> (r: Vec<u32>)
        ensures
            r@ == self@,
    {
        let mut r: Vec<u32> = Vec::new();
        let mut i: usize = 0;
        while i < self.items.len()
            invariant
                i <= self.items@.len(),
                r@ == self.items@.subrange(0, i as int),
            decreases self.items@.len() - i,
        {
            r.push(self.items[i]);
            i = i + 1;
            assert(r@ =~= self.items@.subrange(0, i as int));
        }
        assert(r@ =~= self.items@);
        r
    }

    /// The position at which `x` stands or would stand.
    fn position(&self, x: u32) -> (r: usize)
        requires
            self.wf(),
        ensures
            r <= self@.len(),
            forall|i: int| 0 <= i < r ==> self@[i] < x,
            forall|i: int| r <= i < self@.len() ==> x <= self@[i],
    {
        let mut i: usize = 0;
        while i < self.items.len() && self.items[i] < x
            invariant
                self.wf(),
                i <= self@.len(),
                forall|k: int| 0 <= k < i ==> self@[k] < x,
            decreases self@.len() - i,
        {
            i = i + 1;
        }
        i
    }

    pub fn contains(&self, x: u32) -> (r: bool)
        requires
            self.wf(),
        ensures
            r == self.members().contains(x),
    {
        let i = self.position(x);
        let r = i < self.items.len() && self.items[i] == x;
        proof {
            if self.members().contains(x) {
                let k = choose|k: int| 0 <= k < self@.len() && self@[k] == x;
                assert(k >= i);
                if k > i as int {
                    assert(self@[i as int] < self@[k]);
                }
            }
        }
        r
    }

    pub fn insert(&mut self, x: u32)
        requires
            old(self).wf(),
        ensures
            final(self).wf(),
            final(self).members() == old(self).members().insert(x),
    {
        let i = self.position(x);
        if i < self.items.len() && self.items[i] == x {
            proof {
                assert(old(self).members().insert(x) =~= old(self).members());
            }
            return;
        }
        self.items.insert(i, x);
        proof {
            let s = old(self)@;
            let t = self@;
            assert(t =~= s.subrange(0, i as int).push(x) + s.subrange(i as int, s.len() as int));
            assert forall|a: int, b: int| 0 <= a < b < t.len() implies t[a] < t[b] by {
                if a < i && b > i {
                    assert(t[b] == s[b - 1]);
                }
                if a > i {
                    assert(t[a] == s[a - 1] && t[b] == s[b - 1]);
                }
            }
            assert forall|y: u32| #[trigger] t.to_set().contains(y) <==> s.to_set().insert(
                x,
            ).contains(y) by {
                if t.to_set().contains(y) {
                    let k = choose|k: int| 0 <= k < t.len() && t[k] == y;
                    if k < i {
                        assert(s[k] == y);
                    } else if k > i {
                        assert(s[k - 1] == y);
                    }
                }
                if s.to_set().contains(y) {
                    let k = choose|k: int| 0 <= k < s.len() && s[k] == y;
                    if k < i {
                        assert(t[k] == y);
                    } else {
                        assert(t[k + 1] == y);
                    }
                }
                if y == x {
                    assert(t[i as int] == x);
                }
            }
            assert(t.to_set() =~= s.to_set().insert(x));
        }
    }

    pub fn remove(&mut self, x: u32)
        requires
            old(self).wf(),
        ensures
            final(self).wf(),
            final(self).members() == old(self).members().remove(x),
    {
        let i = self.position(x);
        if i < self.items.len() && self.items[i] == x {
            self.items.remove(i);
            proof {
                let s = old(self)@;
                let t = self@;
                assert forall|a: int, b: int| 0 <= a < b < t.len() implies t[a] < t[b] by {
                    if a >= i {
                        assert(t[a] == s[a + 1] && t[b] == s[b + 1]);
                    } else if b >= i {
                        assert(t[b] == s[b + 1]);
                    }
                }
                assert forall|y: u32| #[trigger] t.to_set().contains(y) <==> s.to_set().remove(
                    x,
                ).contains(y) by {
                    if t.to_set().contains(y) {
                        let k = choose|k: int| 0 <= k < t.len() && t[k] == y;
                        if k < i {
                            assert(s[k] == y);
                        } else {
                            assert(s[k + 1] == y);
                            assert(s[i as int] < s[k + 1]);
                        }
                    }
                    if s.to_set().remove(x).contains(y) {
                        let k = choose|k: int| 0 <= k < s.len() && s[k] == y;
                        if k < i {
                            assert(t[k] == y);
                        } else {
                            assert(k != i);
                            assert(t[k - 1] == y);
                        }
                    }
                }
                assert(t.to_set() =~= s.to_set().remove(x));
            }
        } else {
            proof {
                let s = old(self)@;
                assert(!s.to_set().contains(x)) by {
                    if s.to_set().contains(x) {
                        let k = choose|k: int| 0 <= k < s.len() && s[k] == x;
                        if k > i as int {
                            assert(s[i as int] < s[k]);
                        }
                    }
                }
                assert(s.to_set().remove(x) =~= s.to_set());
            }
        }
    }
}

} // verus!
