//! The lazy cartesian-product combinator itself.
//!
//! [`multi_cartesian_product`] builds a [`MultiProduct`] over a run-time
//! list of inputs. Requesting the next tuple advances an odometer over
//! the inputs: the last input is the fastest-varying digit, a digit that
//! overflows restarts from its input's first element and carries into
//! the digit to its left, and a carry out of the leftmost digit ends the
//! enumeration for good.

use vstd::prelude::*;

use crate::model::digits_ok;
use crate::model::lens_of;
use crate::model::product_seq;
use crate::model::rank_k;
use crate::model::rem_k;
use crate::model::prod_k;
use crate::model::lemma_prod_k_zero;
use crate::model::lemma_prod_k_pos;
use crate::model::lemma_prod_k_monotone;
use crate::model::lemma_rank_k_zero;
use crate::model::lemma_rank_k_bounds;
use crate::model::lemma_rank_k_maxed;
use crate::model::lemma_rank_k_below_max;
use crate::model::lemma_rank_k_increment;
use crate::model::lemma_rem_k_counts;
use crate::model::lemma_rem_k_monotone;
use crate::model::lemma_tuple_k_props;
use crate::model::lemma_product_prefix_len;
use crate::model::lemma_product_prefix_index;
use crate::model::tuple_k;

verus! {

/// Bookkeeping for one input: the input's elements and how many of them
/// the currently live pass has already drawn. The elements themselves
/// also serve as the untouched origin that a carry restarts from.
#[derive(Clone)]
pub struct MultiProductIter<T> {
    items: Vec<T>,
    pos: usize,
}

impl<T> MultiProductIter<T> {
    /// The input sequence this slot draws from.
    pub closed spec fn origin(self) -> Seq<T> {
        self.items@
    }

    /// How many elements the live pass has drawn since the last restart.
    pub closed spec fn drawn(self) -> nat {
        self.pos as nat
    }

    /// Wraps one input, with its live pass at the start.
    pub fn new(items: Vec<T>) -> (r: Self)
        ensures
            r.origin() == items@,
            r.drawn() == 0,
    {
        MultiProductIter { items, pos: 0 }
    }
}

/// The still-productive state: the slots, in output-tuple order, plus
/// the most recently produced tuple (absent before the first request).
#[derive(Clone)]
struct MultiProductInner<T> {
    iters: Vec<MultiProductIter<T>>,
    cur: Option<Vec<T>>,
}

/// The input sequences held by the slots.
spec fn origins_of<T>(iters: Seq<MultiProductIter<T>>) -> Seq<Seq<T>> {
    Seq::new(iters.len(), |i: int| iters[i].items@)
}

/// The odometer digits: each slot's index into its input, once started.
spec fn digits_of<T>(iters: Seq<MultiProductIter<T>>) -> Seq<int> {
    Seq::new(iters.len(), |i: int| iters[i].pos - 1)
}

spec fn inner_wf<T>(inner: MultiProductInner<T>) -> bool {
    match inner.cur {
        Option::None => forall|i: int|
            0 <= i < inner.iters@.len() ==> (#[trigger] inner.iters@[i]).pos == 0,
        Option::Some(c) => {
            &&& inner.iters@.len() > 0
            &&& c@.len() == inner.iters@.len()
            &&& forall|i: int|
                0 <= i < inner.iters@.len() ==> {
                    &&& 1 <= (#[trigger] inner.iters@[i]).pos
                    &&& inner.iters@[i].pos <= inner.iters@[i].items@.len()
                    &&& c@[i] == inner.iters@[i].items@[inner.iters@[i].pos - 1]
                }
        },
    }
}

spec fn inner_remaining<T>(inner: MultiProductInner<T>) -> Seq<Seq<T>> {
    let origins = origins_of(inner.iters@);
    match inner.cur {
        Option::None => product_seq(origins),
        Option::Some(c) => product_seq(origins).skip(
            rank_k(digits_of(inner.iters@), lens_of(origins), inner.iters@.len() as int) + 1,
        ),
    }
}

/// The lazy cartesian product of a run-time list of inputs. Once it
/// reports exhaustion its state is discarded for good, so every later
/// request reports exhaustion again.
#[derive(Clone)]
pub struct MultiProduct<T>(Option<MultiProductInner<T>>);

impl<T> MultiProduct<T> {
    /// The state is internally consistent: each started slot's index is
    /// inside its input and matches the most recent tuple.
    pub closed spec fn wf(self) -> bool {
        match self.0 {
            Option::None => true,
            Option::Some(inner) => inner_wf(inner),
        }
    }

    /// The tuples not yet produced, in the order they will come out.
    pub closed spec fn remaining(self) -> Seq<Seq<T>> {
        match self.0 {
            Option::None => Seq::empty(),
            Option::Some(inner) => inner_remaining(inner),
        }
    }
}

impl<T: Copy> MultiProduct<T> {
    /// Produces the next tuple of the enumeration, or nothing once every
    /// tuple has been produced. Exhaustion is fused: after the first
    /// nothing, every later request also yields nothing.
    pub fn next(&mut self) -> (r: Option<Vec<T>>)
        requires
            old(self).wf(),
        ensures
            final(self).wf(),
            old(self).remaining().len() == 0 ==> r is None && final(self).remaining().len() == 0,
            old(self).remaining().len() > 0 ==> r is Some && r->Some_0@ == old(
                self,
            ).remaining()[0] && final(self).remaining() == old(self).remaining().skip(1),
    {
        let state = self.0.take();
        let mut inner = match state {
            Option::None => {
                return None;
            },
            Option::Some(inner) => inner,
        };
        let n = inner.iters.len();
        let ghost origins = origins_of(inner.iters@);
        let ghost lens = lens_of(origins);
        let ghost full = product_seq(origins);
        let cur_taken = inner.cur.take();
        match cur_taken {
            Option::None => {
                // First request: draw the first element of every slot.
                if n == 0 {
                    // No inputs at all: the one output is the empty tuple,
                    // and the enumeration ends right after it.
                    proof {
                        assert(full =~= seq![Seq::<T>::empty()]);
                        assert(full.skip(1) =~= Seq::<Seq<T>>::empty());
                    }
                    return Some(Vec::new());
                }
                let mut c: Vec<T> = Vec::new();
                let mut i: usize = 0;
                while i < n
                    invariant
                        n == inner.iters@.len(),
                        i <= n,
                        c@.len() == i,
                        inner.cur is None,
                        self.0 is None,
                        origins.len() == n,
                        lens == lens_of(origins),
                        full == product_seq(origins),
                        old(self).remaining() == full,
                        forall|j: int|
                            i <= j < n ==> (#[trigger] inner.iters@[j]).pos == 0,
                        forall|j: int|
                            0 <= j < i ==> (#[trigger] inner.iters@[j]).pos == 1
                                && inner.iters@[j].items@.len() >= 1 && c@[j]
                                == inner.iters@[j].items@[0],
                        forall|j: int|
                            0 <= j < n ==> (#[trigger] inner.iters@[j]).items@ == origins[j],
                    decreases n - i,
                {
                    if inner.iters[i].items.len() == 0 {
                        // One input is empty: the whole product is empty.
                        proof {
                            lemma_product_prefix_len(origins, n as int);
                            lemma_prod_k_zero(lens, n as int, i as int);
                        }
                        return None;
                    }
                    let x = inner.iters[i].items[0];
                    inner.iters[i].pos = 1;
                    c.push(x);
                    i += 1;
                }
                proof {
                    assert(origins_of(inner.iters@) =~= origins);
                    let d = digits_of(inner.iters@);
                    assert(forall|j: int| 0 <= j < n ==> #[trigger] d[j] == 0);
                    assert(forall|j: int| 0 <= j < n ==> #[trigger] lens[j] >= 1);
                    lemma_rank_k_zero(d, lens, n as int);
                    lemma_product_prefix_index(origins, d, n as int);
                    lemma_tuple_k_props(origins, d, n as int);
                    assert(c@ =~= tuple_k(origins, d, n as int));
                    assert(full[0] == c@);
                }
                let out = copy_vec(&c);
                inner.cur = Some(c);
                self.0 = Some(inner);
                return Some(out);
            },
            Option::Some(mut c) => {
                // Later requests: advance the odometer. Scan the slots
                // from the right; a drained slot restarts at its first
                // element and the increment carries one position left.
                let ghost d0 = digits_of(inner.iters@);
                let ghost rank0 = rank_k(d0, lens, n as int);
                proof {
                    assert(digits_ok(d0, lens, n as int));
                    lemma_rank_k_bounds(d0, lens, n as int);
                    lemma_product_prefix_len(origins, n as int);
                }
                let mut i: usize = n;
                while i > 0
                    invariant
                        n == inner.iters@.len(),
                        n > 0,
                        i <= n,
                        c@.len() == n,
                        inner.cur is None,
                        self.0 is None,
                        old(self).remaining() == full.skip(rank0 + 1),
                        origins.len() == n,
                        d0.len() == n,
                        lens == lens_of(origins),
                        full == product_seq(origins),
                        rank0 == rank_k(d0, lens, n as int),
                        digits_ok(d0, lens, n as int),
                        0 <= rank0 <= prod_k(lens, n as int) - 1,
                        full.len() == prod_k(lens, n as int),
                        forall|j: int|
                            0 <= j < n ==> (#[trigger] inner.iters@[j]).items@ == origins[j],
                        forall|j: int|
                            i <= j < n ==> (#[trigger] inner.iters@[j]).pos == 1 && c@[j]
                                == origins[j][0] && d0[j] == lens[j] - 1,
                        forall|j: int|
                            0 <= j < i ==> (#[trigger] inner.iters@[j]).pos == d0[j] + 1 && c@[j]
                                == origins[j][d0[j]],
                    decreases i,
                {
                    i -= 1;
                    let pos = inner.iters[i].pos;
                    if pos < inner.iters[i].items.len() {
                        // This digit can still grow: advance it and stop.
                        let x = inner.iters[i].items[pos];
                        inner.iters[i].pos = pos + 1;
                        c[i] = x;
                        proof {
                            assert(origins_of(inner.iters@) =~= origins);
                            let d1 = digits_of(inner.iters@);
                            assert(forall|j: int|
                                0 <= j < i ==> #[trigger] d1[j] == d0[j]);
                            assert(d1[i as int] == d0[i as int] + 1);
                            assert(forall|j: int|
                                i < j < n ==> #[trigger] d1[j] == 0);
                            lemma_rank_k_increment(d0, d1, lens, n as int, i as int);
                            lemma_rank_k_bounds(d1, lens, n as int);
                            lemma_product_prefix_index(origins, d1, n as int);
                            lemma_tuple_k_props(origins, d1, n as int);
                            assert(c@ =~= tuple_k(origins, d1, n as int));
                            assert(full[rank0 + 1] == c@);
                            assert(full.skip(rank0 + 1)[0] == c@);
                            assert(full.skip(rank0 + 1).skip(1) =~= full.skip(rank0 + 2));
                        }
                        let out = copy_vec(&c);
                        inner.cur = Some(c);
                        self.0 = Some(inner);
                        return Some(out);
                    } else {
                        // Drained: restart at the first element and carry.
                        let x = inner.iters[i].items[0];
                        let ghost iters_before = inner.iters@;
                        let ghost c_before = c@;
                        inner.iters[i].pos = 1;
                        c[i] = x;
                        proof {
                            assert(0 <= d0[i as int] < lens[i as int]);
                            assert(lens[i as int] == origins[i as int].len());
                            assert(pos == d0[i as int] + 1);
                            assert(d0[i as int] == lens[i as int] - 1);
                            assert((inner.iters@[i as int]).pos == 1);
                            assert(c@[i as int] == origins[i as int][0]);
                            assert forall|j: int|
                                0 <= j < i implies (#[trigger] inner.iters@[j]).pos == d0[j] + 1
                                    && c@[j] == origins[j][d0[j]] by {
                                assert((iters_before[j]).pos == d0[j] + 1);
                                assert(c_before[j] == origins[j][d0[j]]);
                                assert(inner.iters@[j] == iters_before[j]);
                                assert(c@[j] == c_before[j]);
                            }
                        }
                    }
                }
                // Every digit carried: the odometer overflowed, the
                // enumeration is over for good.
                proof {
                    assert forall|j: int| 0 <= j < n implies #[trigger] d0[j] == lens[j] - 1
                        && lens[j] >= 1 by {
                        assert((inner.iters@[j]).pos == 1);
                        assert(0 <= d0[j] < lens[j]);
                    }
                    lemma_rank_k_maxed(d0, lens, n as int);
                    assert(full.skip(rank0 + 1).len() == 0);
                }
                return None;
            },
        }
    }

    /// Counts the tuples still to be produced, consuming the product,
    /// without stepping through them one at a time.
    pub fn count(self) -> (r: usize)
        requires
            self.wf(),
            self.remaining().len() <= usize::MAX,
        ensures
            r == self.remaining().len(),
    {
        let inner = match self.0 {
            Option::None => {
                return 0;
            },
            Option::Some(inner) => inner,
        };
        let n = inner.iters.len();
        let ghost origins = origins_of(inner.iters@);
        let ghost lens = lens_of(origins);
        proof {
            lemma_product_prefix_len(origins, n as int);
        }
        match &inner.cur {
            Option::None => {
                // Not yet started: the remaining count is the plain
                // product of the input lengths, zero as soon as one
                // input is empty.
                let mut i: usize = 0;
                while i < n
                    invariant
                        n == inner.iters@.len(),
                        i <= n,
                        origins.len() == n,
                        lens == lens_of(origins),
                        self.remaining() == product_seq(origins),
                        forall|j: int|
                            0 <= j < n ==> (#[trigger] inner.iters@[j]).items@ == origins[j],
                        forall|j: int| 0 <= j < i ==> #[trigger] lens[j] >= 1,
                    decreases n - i,
                {
                    if inner.iters[i].items.len() == 0 {
                        proof {
                            lemma_product_prefix_len(origins, n as int);
                            lemma_prod_k_zero(lens, n as int, i as int);
                        }
                        return 0;
                    }
                    i += 1;
                }
                let mut acc: usize = 1;
                let mut k: usize = 0;
                while k < n
                    invariant
                        n == inner.iters@.len(),
                        k <= n,
                        origins.len() == n,
                        lens == lens_of(origins),
                        forall|j: int|
                            0 <= j < n ==> (#[trigger] inner.iters@[j]).items@ == origins[j],
                        forall|j: int| 0 <= j < n ==> #[trigger] lens[j] >= 1,
                        acc == prod_k(lens, k as int),
                        prod_k(lens, n as int) <= usize::MAX,
                    decreases n - k,
                {
                    proof {
                        lemma_prod_k_monotone(lens, k as int + 1, n as int);
                        lemma_prod_k_pos(lens, k as int);
                        assert(prod_k(lens, k as int + 1) == acc * lens[k as int]);
                    }
                    acc = acc * inner.iters[k].items.len();
                    k += 1;
                }
                acc
            },
            Option::Some(_) => {
                // Started: accumulate, left to right, what is left in
                // each live pass, weighting the count so far by the full
                // length of each input it passes.
                let ghost d0 = digits_of(inner.iters@);
                proof {
                    assert(digits_ok(d0, lens, n as int));
                    lemma_rem_k_counts(d0, lens, n as int);
                    lemma_product_prefix_len(origins, n as int);
                    lemma_rank_k_bounds(d0, lens, n as int);
                    assert(self.remaining().len() == rem_k(d0, lens, n as int));
                }
                let mut acc: usize = 0;
                let mut i: usize = 0;
                while i < n
                    invariant
                        n == inner.iters@.len(),
                        i <= n,
                        origins.len() == n,
                        d0.len() == n,
                        lens == lens_of(origins),
                        d0 == digits_of(inner.iters@),
                        digits_ok(d0, lens, n as int),
                        rem_k(d0, lens, n as int) <= usize::MAX,
                        acc == rem_k(d0, lens, i as int),
                        forall|j: int|
                            0 <= j < n ==> (#[trigger] inner.iters@[j]).items@ == origins[j]
                                && 1 <= inner.iters@[j].pos <= inner.iters@[j].items@.len(),
                    decreases n - i,
                {
                    let len_i = inner.iters[i].items.len();
                    let pos_i = inner.iters[i].pos;
                    proof {
                        assert(d0[i as int] == pos_i - 1);
                        assert(lens[i as int] == len_i);
                        lemma_rem_k_monotone(d0, lens, i as int + 1, n as int);
                        assert(rem_k(d0, lens, i as int + 1) == acc * len_i + (len_i - pos_i));
                        lemma_rem_k_monotone(d0, lens, i as int, i as int + 1);
                        assert(acc * len_i >= 0) by (nonlinear_arith)
                            requires
                                acc >= 0,
                                len_i >= 0,
                        ;
                    }
                    acc = acc * len_i + (len_i - pos_i);
                    i += 1;
                }
                proof {
                    lemma_rank_k_bounds(d0, lens, n as int);
                }
                acc
            },
        }
    }

    /// Bounds on how many tuples are still to be produced: the exact
    /// count, as both lower and upper bound, whenever it fits in a
    /// `usize`; otherwise a saturated lower bound and no upper bound.
    pub fn size_hint(&self) -> (r: (usize, Option<usize>))
        requires
            self.wf(),
        ensures
            self.remaining().len() <= usize::MAX ==> r.0 == self.remaining().len() && r.1
                == Some(r.0),
            self.remaining().len() > usize::MAX ==> r.0 == usize::MAX && r.1 is None,
    {
        let inner = match &self.0 {
            Option::None => {
                return (0, Some(0));
            },
            Option::Some(inner) => inner,
        };
        let n = inner.iters.len();
        let ghost origins = origins_of(inner.iters@);
        let ghost lens = lens_of(origins);
        proof {
            lemma_product_prefix_len(origins, n as int);
        }
        match &inner.cur {
            Option::None => {
                // Not yet started: multiply the input lengths, stopping
                // early when one input is empty.
                let mut i: usize = 0;
                while i < n
                    invariant
                        n == inner.iters@.len(),
                        i <= n,
                        origins.len() == n,
                        lens == lens_of(origins),
                        self.remaining() == product_seq(origins),
                        forall|j: int|
                            0 <= j < n ==> (#[trigger] inner.iters@[j]).items@ == origins[j],
                        forall|j: int| 0 <= j < i ==> #[trigger] lens[j] >= 1,
                    decreases n - i,
                {
                    if inner.iters[i].items.len() == 0 {
                        proof {
                            lemma_product_prefix_len(origins, n as int);
                            lemma_prod_k_zero(lens, n as int, i as int);
                        }
                        return (0, Some(0));
                    }
                    i += 1;
                }
                let mut acc: Option<usize> = Some(1);
                let mut k: usize = 0;
                while k < n
                    invariant
                        n == inner.iters@.len(),
                        k <= n,
                        origins.len() == n,
                        lens == lens_of(origins),
                        forall|j: int|
                            0 <= j < n ==> (#[trigger] inner.iters@[j]).items@ == origins[j],
                        forall|j: int| 0 <= j < n ==> #[trigger] lens[j] >= 1,
                        acc is Some ==> acc->Some_0 == prod_k(lens, k as int),
                        acc is None ==> prod_k(lens, k as int) > usize::MAX,
                    decreases n - k,
                {
                    let len_k = inner.iters[k].items.len();
                    proof {
                        lemma_prod_k_pos(lens, k as int);
                        assert(prod_k(lens, k as int + 1) == prod_k(lens, k as int) * lens[k as int]);
                        if acc is None {
                            assert(prod_k(lens, k as int) * lens[k as int] >= prod_k(
                                lens,
                                k as int,
                            )) by (nonlinear_arith)
                                requires
                                    prod_k(lens, k as int) >= 1,
                                    lens[k as int] >= 1,
                            ;
                        }
                    }
                    acc = match acc {
                        Option::Some(v) => v.checked_mul(len_k),
                        Option::None => None,
                    };
                    k += 1;
                }
                proof {
                    lemma_product_prefix_len(origins, n as int);
                }
                match acc {
                    Option::Some(v) => (v, Some(v)),
                    Option::None => (usize::MAX, None),
                }
            },
            Option::Some(_) => {
                // Started: the same accumulation as the exact count, but
                // giving up the upper bound when it stops fitting.
                let ghost d0 = digits_of(inner.iters@);
                proof {
                    assert(digits_ok(d0, lens, n as int));
                    lemma_rem_k_counts(d0, lens, n as int);
                    lemma_rank_k_bounds(d0, lens, n as int);
                    assert(self.remaining().len() == rem_k(d0, lens, n as int));
                }
                let mut acc: Option<usize> = Some(0);
                let mut i: usize = 0;
                while i < n
                    invariant
                        n == inner.iters@.len(),
                        i <= n,
                        origins.len() == n,
                        d0.len() == n,
                        lens == lens_of(origins),
                        d0 == digits_of(inner.iters@),
                        digits_ok(d0, lens, n as int),
                        acc is Some ==> acc->Some_0 == rem_k(d0, lens, i as int),
                        acc is None ==> rem_k(d0, lens, i as int) > usize::MAX,
                        forall|j: int|
                            0 <= j < n ==> (#[trigger] inner.iters@[j]).items@ == origins[j]
                                && 1 <= inner.iters@[j].pos <= inner.iters@[j].items@.len(),
                    decreases n - i,
                {
                    let len_i = inner.iters[i].items.len();
                    let pos_i = inner.iters[i].pos;
                    proof {
                        assert(d0[i as int] == pos_i - 1);
                        assert(lens[i as int] == len_i);
                        assert(rem_k(d0, lens, i as int + 1) == rem_k(d0, lens, i as int) * len_i
                            + (len_i - pos_i));
                        if acc is None {
                            lemma_rem_k_monotone(d0, lens, i as int, i as int + 1);
                        }
                    }
                    acc = match acc {
                        Option::Some(v) => match v.checked_mul(len_i) {
                            Option::Some(w) => w.checked_add(len_i - pos_i),
                            Option::None => None,
                        },
                        Option::None => None,
                    };
                    i += 1;
                }
                match acc {
                    Option::Some(v) => (v, Some(v)),
                    Option::None => (usize::MAX, None),
                }
            },
        }
    }

    /// The final tuple of the full enumeration, computed without
    /// stepping through the tuples in between; nothing when every tuple
    /// has already been produced (in particular, nothing when the most
    /// recent tuple was the final one).
    pub fn last(self) -> (r: Option<Vec<T>>)
        requires
            self.wf(),
        ensures
            self.remaining().len() == 0 ==> r is None,
            self.remaining().len() > 0 ==> r is Some && r->Some_0@ == self.remaining().last(),
    {
        let inner = match self.0 {
            Option::None => {
                return None;
            },
            Option::Some(inner) => inner,
        };
        let n = inner.iters.len();
        let ghost origins = origins_of(inner.iters@);
        let ghost lens = lens_of(origins);
        let ghost full = product_seq(origins);
        proof {
            lemma_product_prefix_len(origins, n as int);
        }
        match &inner.cur {
            Option::None => {
                // Not yet started: the last tuple takes each input's
                // last element; there is none if some input is empty.
                let mut out: Vec<T> = Vec::new();
                let mut i: usize = 0;
                while i < n
                    invariant
                        n == inner.iters@.len(),
                        i <= n,
                        out@.len() == i,
                        origins.len() == n,
                        lens == lens_of(origins),
                        full == product_seq(origins),
                        self.remaining() == full,
                        forall|j: int|
                            0 <= j < n ==> (#[trigger] inner.iters@[j]).items@ == origins[j],
                        forall|j: int|
                            0 <= j < i ==> #[trigger] lens[j] >= 1 && out@[j] == origins[j][lens[j]
                                - 1],
                    decreases n - i,
                {
                    let len_i = inner.iters[i].items.len();
                    if len_i == 0 {
                        proof {
                            lemma_product_prefix_len(origins, n as int);
                            lemma_prod_k_zero(lens, n as int, i as int);
                        }
                        return None;
                    }
                    out.push(inner.iters[i].items[len_i - 1]);
                    i += 1;
                }
                proof {
                    let dmax = Seq::new(n as nat, |j: int| lens[j] - 1);
                    lemma_rank_k_maxed(dmax, lens, n as int);
                    lemma_product_prefix_index(origins, dmax, n as int);
                    lemma_tuple_k_props(origins, dmax, n as int);
                    assert(out@ =~= tuple_k(origins, dmax, n as int));
                    lemma_prod_k_pos(lens, n as int);
                    assert(full.last() == out@);
                }
                Some(out)
            },
            Option::Some(c) => {
                // Started: take each slot's remaining last element, or
                // its element of the most recent tuple where the slot is
                // already drained. If every slot is drained, the most
                // recent tuple was the final one.
                let ghost d0 = digits_of(inner.iters@);
                let ghost rank0 = rank_k(d0, lens, n as int);
                proof {
                    assert(digits_ok(d0, lens, n as int));
                    lemma_rank_k_bounds(d0, lens, n as int);
                }
                let mut out: Vec<T> = Vec::new();
                let mut progressed: usize = 0;
                let mut i: usize = 0;
                while i < n
                    invariant
                        n == inner.iters@.len(),
                        i <= n,
                        out@.len() == i,
                        progressed <= i,
                        origins.len() == n,
                        d0.len() == n,
                        lens == lens_of(origins),
                        d0 == digits_of(inner.iters@),
                        digits_ok(d0, lens, n as int),
                        c@.len() == n,
                        (progressed == 0) == (forall|j: int|
                            0 <= j < i ==> #[trigger] d0[j] == lens[j] - 1),
                        forall|j: int|
                            0 <= j < n ==> (#[trigger] inner.iters@[j]).items@ == origins[j]
                                && 1 <= inner.iters@[j].pos <= inner.iters@[j].items@.len() && c@[j]
                                == origins[j][inner.iters@[j].pos - 1],
                        forall|j: int|
                            0 <= j < i ==> #[trigger] out@[j] == origins[j][lens[j] - 1],
                    decreases n - i,
                {
                    let len_i = inner.iters[i].items.len();
                    let pos_i = inner.iters[i].pos;
                    proof {
                        assert(d0[i as int] == pos_i - 1);
                        assert(lens[i as int] == len_i);
                    }
                    if pos_i < len_i {
                        out.push(inner.iters[i].items[len_i - 1]);
                        progressed = progressed + 1;
                    } else {
                        out.push(c[i]);
                        proof {
                            assert(pos_i == len_i);
                            assert(c@[i as int] == origins[i as int][len_i - 1]);
                        }
                    }
                    i += 1;
                }
                if progressed == 0 {
                    proof {
                        assert forall|j: int| 0 <= j < n implies #[trigger] d0[j] == lens[j] - 1
                            && lens[j] >= 1 by {
                            assert(0 <= d0[j] < lens[j]);
                        }
                        lemma_rank_k_maxed(d0, lens, n as int);
                        assert(self.remaining().len() == 0);
                    }
                    None
                } else {
                    proof {
                        assert(!(forall|j: int| 0 <= j < n ==> #[trigger] d0[j] == lens[j] - 1));
                        let w = choose|j: int| 0 <= j < n && #[trigger] d0[j] != lens[j] - 1;
                        assert(d0[w] < lens[w] - 1);
                        lemma_rank_k_below_max(d0, lens, n as int, w);
                        let dmax = Seq::new(n as nat, |j: int| lens[j] - 1);
                        assert forall|j: int| 0 <= j < n implies #[trigger] dmax[j] == lens[j] - 1
                            && lens[j] >= 1 by {
                            assert(0 <= d0[j] < lens[j]);
                        }
                        lemma_rank_k_maxed(dmax, lens, n as int);
                        lemma_product_prefix_index(origins, dmax, n as int);
                        lemma_tuple_k_props(origins, dmax, n as int);
                        assert(out@ =~= tuple_k(origins, dmax, n as int));
                        assert(full.last() == out@);
                        assert(self.remaining() == full.skip(rank0 + 1));
                        assert(self.remaining().len() == full.len() - rank0 - 1);
                        assert(self.remaining().last() == full.skip(rank0 + 1)[full.len() - rank0
                            - 2]);
                        assert(self.remaining().last() == full[full.len() - 1]);
                    }
                    Some(out)
                }
            },
        }
    }
}

/// An element-by-element copy of a vector of plain values.
fn copy_vec<T: Copy>(v: &Vec<T>) -> (r: Vec<T>)
    ensures
        r@ == v@,
{
    let mut out: Vec<T> = Vec::new();
    let mut i: usize = 0;
    while i < v.len()
        invariant
            i <= v.len(),
            out@.len() == i,
            forall|j: int| 0 <= j < i ==> out@[j] == v@[j],
        decreases v.len() - i,
    {
        out.push(v[i]);
        i += 1;
    }
    proof {
        assert(out@ =~= v@);
    }
    out
}

/// Creates the lazy cartesian product of `inputs`: it will yield every
/// tuple that picks one element from each input, in mixed-radix order
/// with the last input varying fastest.
pub fn multi_cartesian_product<T: Copy>(inputs: Vec<Vec<T>>) -> (r: MultiProduct<T>)
    ensures
        r.wf(),
        r.remaining() == product_seq(inputs@.map_values(|v: Vec<T>| v@)),
{
    let mut iters: Vec<MultiProductIter<T>> = Vec::new();
    let mut i: usize = 0;
    while i < inputs.len()
        invariant
            i <= inputs.len(),
            iters@.len() == i,
            forall|j: int|
                0 <= j < i ==> (#[trigger] iters@[j]).origin() == inputs@[j]@ && iters@[j].drawn()
                    == 0,
        decreases inputs.len() - i,
    {
        iters.push(MultiProductIter::new(copy_vec(&inputs[i])));
        i += 1;
    }
    let inner = MultiProductInner { iters, cur: None };
    proof {
        assert(origins_of(inner.iters@) =~= inputs@.map_values(|v: Vec<T>| v@));
    }
    MultiProduct(Some(inner))
}

} // verus!
