use std::collections::{HashMap, HashSet};
use vstd::prelude::*;
use crate::address::{CellAddress, address_key, key_address, key_of, lemma_address_key_bijective, lemma_address_key_injective};

verus! {

broadcast use vstd::std_specs::hash::group_hash_axioms;

/// How many times one address may be added to a queue over its lifetime.
pub const MAX_ADDITIONS: u32 = 100;

/// A last-in-first-out queue of addresses in which no address stands twice at
/// once, and to which no address is added more than [`MAX_ADDITIONS`] times,
/// so that circular or oscillating dependencies cannot cause endless
/// re-evaluation.
pub struct EvaluationQueue {
    items: Vec<CellAddress>,
    in_queue: HashSet<u64>,
    addition_counts: HashMap<u64, u32>,
}

/// How many times `address` has been added, in the abstract state `model`.
pub open spec fn count_in(counts: Map<CellAddress, nat>, address: CellAddress) -> nat {
    if counts.contains_key(address) {
        counts[address]
    } else {
        0
    }
}

/// The abstract state after pushing `item`: unchanged when the item is
/// already queued or has reached the limit, otherwise the item on top and its
/// count one higher.
pub open spec fn push_model(
    model: (Seq<CellAddress>, Map<CellAddress, nat>),
    item: CellAddress,
) -> (Seq<CellAddress>, Map<CellAddress, nat>) {
    if model.0.contains(item) || count_in(model.1, item) >= MAX_ADDITIONS {
        model
    } else {
        (model.0.push(item), model.1.insert(item, count_in(model.1, item) + 1))
    }
}

/// The abstract state after pushing each of `items` in turn.
pub open spec fn extend_model(
    model: (Seq<CellAddress>, Map<CellAddress, nat>),
    items: Seq<CellAddress>,
) -> (Seq<CellAddress>, Map<CellAddress, nat>)
    decreases items.len(),
{
    if items.len() == 0 {
        model
    } else {
        push_model(extend_model(model, items.drop_last()), items.last())
    }
}

impl View for EvaluationQueue {
    /// The queued addresses from bottom to top, and for every address that
    /// has ever been added, how many times it has been added.
    type V = (Seq<CellAddress>, Map<CellAddress, nat>);

    closed spec fn view(&self) -> (Seq<CellAddress>, Map<CellAddress, nat>) {
        (
            self.items@,
            Map::new(
                |a: CellAddress| self.addition_counts@.contains_key(address_key(a)),
                |a: CellAddress| self.addition_counts@[address_key(a)] as nat,
            ),
        )
    }
}

impl EvaluationQueue {
    /// The internal consistency of the queue: the set of queued keys mirrors
    /// the stack of items, no address is queued twice, and every count lies
    /// between one and the limit.
    pub closed spec fn well_formed(self) -> bool {
        &&& forall|k: u64| #[trigger]
            self.in_queue@.contains(k) <==> self.items@.contains(key_address(k))
        &&& self.items@.no_duplicates()
        &&& forall|i: int|
            0 <= i < self.items@.len() ==> self.addition_counts@.contains_key(
                #[trigger] address_key(self.items@[i]),
            )
        &&& forall|k: u64| #[trigger]
            self.addition_counts@.contains_key(k) ==> 1 <= self.addition_counts@[k]
                <= MAX_ADDITIONS
    }

    /// The empty queue.
    pub fn new() -> (queue: Self)
        ensures
            queue.well_formed(),
            queue@.0 == Seq::<CellAddress>::empty(),
            queue@.1 == Map::<CellAddress, nat>::empty(),
    {
        let queue = Self { items: Vec::new(), in_queue: HashSet::new(), addition_counts: HashMap::new() };
        assert(queue@.1 =~= Map::<CellAddress, nat>::empty());
        queue
    }

    /// Pushes `item` on top of the queue, unless it is already queued or has
    /// already been added [`MAX_ADDITIONS`] times; in those cases the queue is
    /// left unchanged.
    pub fn push(&mut self, item: CellAddress)
        requires
            old(self).well_formed(),
        ensures
            final(self).well_formed(),
            final(self)@ == push_model(old(self)@, item),
    {
        let key = key_of(item);
        proof {
            lemma_address_key_bijective(item, key);
        }
        if self.in_queue.contains(&key) {
            return;
        }
        let count: u32 = match self.addition_counts.get(&key) {
            Some(c) => *c,
            None => 0,
        };
        assert(count == count_in(old(self)@.1, item));
        if count >= MAX_ADDITIONS {
            return;
        }
        self.addition_counts.insert(key, count + 1);
        self.in_queue.insert(key);
        self.items.push(item);
        proof {
            assert(self@.1 =~= old(self)@.1.insert(item, count_in(old(self)@.1, item) + 1)) by {
                assert forall|a: CellAddress| true implies (#[trigger] self@.1.contains_key(a)
                    == old(self)@.1.insert(item, count_in(old(self)@.1, item) + 1).contains_key(a))
                    by {
                    lemma_address_key_injective(a, item);
                }
                assert forall|a: CellAddress| #[trigger] self@.1.contains_key(a) implies self@.1[a]
                    == old(self)@.1.insert(item, count_in(old(self)@.1, item) + 1)[a] by {
                    lemma_address_key_injective(a, item);
                }
            }
            assert forall|k: u64| #[trigger]
                self.in_queue@.contains(k) <==> self.items@.contains(key_address(k)) by {
                lemma_address_key_bijective(item, k);
                if k != key {
                    if self.items@.contains(key_address(k)) {
                        let i = choose|i: int|
                            0 <= i < self.items@.len() && self.items@[i] == key_address(k);
                        if i < old(self).items@.len() {
                            assert(old(self).items@[i] == key_address(k));
                        }
                    }
                    if old(self).items@.contains(key_address(k)) {
                        let i = choose|i: int|
                            0 <= i < old(self).items@.len() && old(self).items@[i]
                                == key_address(k);
                        assert(self.items@[i] == key_address(k));
                    }
                } else {
                    assert(self.items@[self.items@.len() - 1] == item);
                }
            }
        }
    }

    /// Takes the address on top of the queue, or returns `None` when the queue
    /// is empty. Addition counts are not changed.
    pub fn pop(&mut self) -> (item: Option<CellAddress>)
        requires
            old(self).well_formed(),
        ensures
            final(self).well_formed(),
            final(self)@.1 == old(self)@.1,
            match item {
                Some(top) => {
                    &&& old(self)@.0.len() > 0
                    &&& top == old(self)@.0.last()
                    &&& final(self)@.0 == old(self)@.0.drop_last()
                },
                None => old(self)@.0.len() == 0 && final(self)@ == old(self)@,
            },
    {
        match self.items.pop() {
            None => None,
            Some(item) => {
                let key = key_of(item);
                self.in_queue.remove(&key);
                proof {
                    assert(self@.1 =~= old(self)@.1);
                    assert(old(self).items@ == self.items@.push(item));
                    assert forall|k: u64| #[trigger]
                        self.in_queue@.contains(k) <==> self.items@.contains(key_address(k)) by {
                        lemma_address_key_bijective(item, k);
                        if k == key {
                            assert(!self.items@.contains(item)) by {
                                if self.items@.contains(item) {
                                    let i = choose|i: int|
                                        0 <= i < self.items@.len() && self.items@[i] == item;
                                    assert(old(self).items@[i] == old(self).items@[
                                        old(self).items@.len() - 1]);
                                }
                            }
                        } else {
                            if old(self).items@.contains(key_address(k)) {
                                let i = choose|i: int|
                                    0 <= i < old(self).items@.len() && old(self).items@[i]
                                        == key_address(k);
                                assert(i != self.items@.len());
                                assert(self.items@[i] == key_address(k));
                            }
                            if self.items@.contains(key_address(k)) {
                                let i = choose|i: int|
                                    0 <= i < self.items@.len() && self.items@[i]
                                        == key_address(k);
                                assert(old(self).items@[i] == key_address(k));
                            }
                        }
                    }
                }
                Some(item)
            },
        }
    }

    /// The laws that every queue obeys: no address is queued twice, every
    /// queued address has been added at least once, and no address has been
    /// added more than [`MAX_ADDITIONS`] times.
    pub proof fn lemma_queue_laws(self)
        requires
            self.well_formed(),
        ensures
            self@.0.no_duplicates(),
            forall|i: int| 0 <= i < self@.0.len() ==> count_in(self@.1, #[trigger] self@.0[i]) >= 1,
            forall|a: CellAddress| count_in(self@.1, a) <= MAX_ADDITIONS,
    {
        assert forall|i: int| 0 <= i < self@.0.len() implies count_in(self@.1, #[trigger] self@.0[i]) >= 1 by {
            assert(self.addition_counts@.contains_key(address_key(self.items@[i])));
        }
        assert forall|a: CellAddress| count_in(self@.1, a) <= MAX_ADDITIONS by {
            if self@.1.contains_key(a) {
                assert(self.addition_counts@.contains_key(address_key(a)));
            }
        }
    }

    /// Pushes each of `items` in turn, as [`EvaluationQueue::push`] does.
    pub fn extend(&mut self, items: Vec<CellAddress>)
        requires
            old(self).well_formed(),
        ensures
            final(self).well_formed(),
            final(self)@ == extend_model(old(self)@, items@),
    {
        let mut i: usize = 0;
        while i < items.len()
            invariant
                i <= items.len(),
                self.well_formed(),
                self@ == extend_model(old(self)@, items@.take(i as int)),
            decreases items.len() - i,
        {
            self.push(items[i]);
            assert(items@.take(i + 1).drop_last() == items@.take(i as int));
            i += 1;
        }
        assert(items@.take(items.len() as int) == items@);
    }

    /// The queue made by pushing each of `items` in turn onto the empty queue.
    pub fn from_iter(items: Vec<CellAddress>) -> (queue: Self)
        ensures
            queue.well_formed(),
            queue@ == extend_model(
                (Seq::<CellAddress>::empty(), Map::<CellAddress, nat>::empty()),
                items@,
            ),
    {
        let mut queue = Self::new();
        queue.extend(items);
        queue
    }
}

/// The bound below which the numbers of all possible additions lie.
pub open spec fn code_bound() -> int {
    MAX_ADDITIONS * 0x1_0000_0000_0000_0000
}

/// Pushing items keeps every queued address queued, and queues an address
/// among them that had never been added before.
pub proof fn lemma_extend_queues(
    model: (Seq<CellAddress>, Map<CellAddress, nat>),
    items: Seq<CellAddress>,
    x: CellAddress,
)
    ensures
        model.0.contains(x) ==> extend_model(model, items).0.contains(x),
        count_in(model.1, x) == 0 && items.contains(x) ==> extend_model(model, items).0.contains(x),
        count_in(model.1, x) == 0 ==> count_in(extend_model(model, items).1, x) == 0
            || extend_model(model, items).0.contains(x),
    decreases items.len(),
{
    if items.len() > 0 {
        let prefix = items.drop_last();
        lemma_extend_queues(model, prefix, x);
        let m = extend_model(model, prefix);
        let item = items.last();
        assert(extend_model(model, items) == push_model(m, item));
        if m.0.contains(x) {
            assert(m.0.push(item).contains(x)) by {
                let k = choose|k: int| 0 <= k < m.0.len() && m.0[k] == x;
                assert(m.0.push(item)[k] == x);
            }
        }
        if item == x && !m.0.contains(x) && count_in(m.1, x) == 0 {
            assert(m.0.push(item)[m.0.len() as int] == x);
        }
        if count_in(model.1, x) == 0 && items.contains(x) && item != x {
            let k = choose|k: int| 0 <= k < items.len() && items[k] == x;
            assert(prefix[k] == x);
        }
        if item != x {
            assert(count_in(push_model(m, item).1, x) == count_in(m.1, x));
        }
    }
}

/// Whether `x` is queued or has been added as often as the limit allows.
pub open spec fn queued_or_exhausted(model: (Seq<CellAddress>, Map<CellAddress, nat>), x: CellAddress) -> bool {
    model.0.contains(x) || count_in(model.1, x) >= MAX_ADDITIONS
}

/// Pushing items leaves each of them queued or exhausted, keeps what was
/// queued or exhausted so, and never lowers a count.
pub proof fn lemma_extend_covers(
    model: (Seq<CellAddress>, Map<CellAddress, nat>),
    items: Seq<CellAddress>,
    x: CellAddress,
)
    ensures
        items.contains(x) ==> queued_or_exhausted(extend_model(model, items), x),
        queued_or_exhausted(model, x) ==> queued_or_exhausted(extend_model(model, items), x),
        count_in(model.1, x) <= count_in(extend_model(model, items).1, x),
    decreases items.len(),
{
    if items.len() > 0 {
        let prefix = items.drop_last();
        lemma_extend_covers(model, prefix, x);
        let m = extend_model(model, prefix);
        let item = items.last();
        assert(extend_model(model, items) == push_model(m, item));
        if m.0.contains(x) {
            let k = choose|k: int| 0 <= k < m.0.len() && m.0[k] == x;
            assert(m.0.push(item)[k] == x);
        }
        if item == x && !m.0.contains(x) && count_in(m.1, x) < MAX_ADDITIONS {
            assert(m.0.push(item)[m.0.len() as int] == x);
        }
        if items.contains(x) && item != x {
            let k = choose|k: int| 0 <= k < items.len() && items[k] == x;
            assert(prefix[k] == x);
        }
    }
}

/// The number that stands for the `j`-th addition (from zero) of `a`.
pub open spec fn addition_code(a: CellAddress, j: int) -> int {
    address_key(a) * MAX_ADDITIONS + j
}

/// The numbers of all additions that `counts` records.
pub open spec fn addition_codes(counts: Map<CellAddress, nat>) -> Set<int> {
    Set::new(
        |c: int|
            exists|a: CellAddress, j: int|
                0 <= j < count_in(counts, a) && c == #[trigger] addition_code(a, j),
    )
}

/// How much work a queue can still hand out: the additions that the limit
/// still allows, and the addresses queued now.
pub open spec fn remaining_work(model: (Seq<CellAddress>, Map<CellAddress, nat>)) -> nat {
    ((code_bound() - addition_codes(model.1).len()) + model.0.len()) as nat
}

/// Whether no address has been added more often than the limit allows.
pub open spec fn counts_within_limit(counts: Map<CellAddress, nat>) -> bool {
    forall|a: CellAddress| #[trigger] count_in(counts, a) <= MAX_ADDITIONS
}

/// Two additions have the same number only if they are the same.
proof fn lemma_addition_code_injective(a: CellAddress, j: int, b: CellAddress, i: int)
    requires
        0 <= j < MAX_ADDITIONS,
        0 <= i < MAX_ADDITIONS,
        addition_code(a, j) == addition_code(b, i),
    ensures
        a == b,
        j == i,
{
    let ka = address_key(a) as int;
    let kb = address_key(b) as int;
    assert(ka == kb && j == i) by (nonlinear_arith)
        requires
            ka * 100 + j == kb * 100 + i,
            0 <= j < 100,
            0 <= i < 100,
    ;
    lemma_address_key_injective(a, b);
}

/// The numbers of additions within the limit lie below the bound, so there
/// are finitely many of them, and no more than the bound.
proof fn lemma_addition_codes_bounded(counts: Map<CellAddress, nat>)
    requires
        counts_within_limit(counts),
    ensures
        addition_codes(counts).finite(),
        addition_codes(counts).len() <= code_bound(),
{
    vstd::set_lib::lemma_int_range(0, code_bound());
    assert forall|c: int| addition_codes(counts).contains(c) implies vstd::set_lib::set_int_range(
        0,
        code_bound(),
    ).contains(c) by {
        let (a, j) = choose|a: CellAddress, j: int|
            0 <= j < count_in(counts, a) && c == #[trigger] addition_code(a, j);
        assert(count_in(counts, a) <= MAX_ADDITIONS);
        let k = address_key(a) as int;
        assert(0 <= k * 100 + j < 100 * 0x1_0000_0000_0000_0000) by (nonlinear_arith)
            requires
                0 <= k <= u64::MAX,
                0 <= j < 100,
        ;
    }
    vstd::set_lib::lemma_len_subset(
        addition_codes(counts),
        vstd::set_lib::set_int_range(0, code_bound()),
    );
}

/// Pushing leaves the remaining work unchanged and the counts within the
/// limit.
pub proof fn lemma_push_work(model: (Seq<CellAddress>, Map<CellAddress, nat>), item: CellAddress)
    requires
        counts_within_limit(model.1),
    ensures
        counts_within_limit(push_model(model, item).1),
        remaining_work(push_model(model, item)) == remaining_work(model),
        code_bound() >= addition_codes(model.1).len(),
{
    lemma_addition_codes_bounded(model.1);
    if !(model.0.contains(item) || count_in(model.1, item) >= MAX_ADDITIONS) {
        let after = push_model(model, item).1;
        let c = count_in(model.1, item) as int;
        let code = addition_code(item, c);
        assert forall|a: CellAddress| #[trigger] count_in(after, a) <= MAX_ADDITIONS by {
            assert(count_in(model.1, a) <= MAX_ADDITIONS);
        }
        assert(!addition_codes(model.1).contains(code)) by {
            if addition_codes(model.1).contains(code) {
                let (a, j) = choose|a: CellAddress, j: int|
                    0 <= j < count_in(model.1, a) && code == #[trigger] addition_code(a, j);
                assert(count_in(model.1, a) <= MAX_ADDITIONS);
                lemma_addition_code_injective(item, c, a, j);
            }
        }
        assert(addition_codes(after) =~= addition_codes(model.1).insert(code)) by {
            assert forall|x: int| addition_codes(after).contains(x) implies addition_codes(
                model.1,
            ).insert(code).contains(x) by {
                let (a, j) = choose|a: CellAddress, j: int|
                    0 <= j < count_in(after, a) && x == #[trigger] addition_code(a, j);
                if a != item || j != c {
                    assert(0 <= j < count_in(model.1, a));
                    assert(addition_codes(model.1).contains(x));
                }
            }
            assert forall|x: int| addition_codes(model.1).insert(code).contains(x) implies addition_codes(
                after,
            ).contains(x) by {
                if x == code {
                    assert(0 <= c < count_in(after, item));
                } else {
                    let (a, j) = choose|a: CellAddress, j: int|
                        0 <= j < count_in(model.1, a) && x == #[trigger] addition_code(a, j);
                    assert(0 <= j < count_in(after, a));
                }
            }
        }
        lemma_addition_codes_bounded(after);
    }
}

/// Pushing several items leaves the remaining work unchanged and the counts
/// within the limit.
pub proof fn lemma_extend_work(model: (Seq<CellAddress>, Map<CellAddress, nat>), items: Seq<CellAddress>)
    requires
        counts_within_limit(model.1),
    ensures
        counts_within_limit(extend_model(model, items).1),
        remaining_work(extend_model(model, items)) == remaining_work(model),
    decreases items.len(),
{
    if items.len() > 0 {
        lemma_extend_work(model, items.drop_last());
        lemma_push_work(extend_model(model, items.drop_last()), items.last());
    }
}

impl EvaluationQueue {
    /// The counts of a well-formed queue are within the limit, and the
    /// remaining work is what [`remaining_work`] says of its state.
    pub proof fn lemma_work_bounded(self)
        requires
            self.well_formed(),
        ensures
            counts_within_limit(self@.1),
            code_bound() >= addition_codes(self@.1).len(),
    {
        self.lemma_queue_laws();
        lemma_addition_codes_bounded(self@.1);
    }
}

} // verus!
