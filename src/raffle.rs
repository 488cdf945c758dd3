use vstd::prelude::*;
use std::collections::HashMap;

use crate::error::ContractError;
use crate::util::{get_random_number, le_value};

verus! {

broadcast use vstd::std_specs::hash::group_hash_axioms;

/// `s` holds each of `0 .. n` exactly once and nothing else.
pub open spec fn is_permutation_of_range(s: Seq<u64>, n: nat) -> bool {
    &&& s.len() == n
    &&& s.no_duplicates()
    &&& forall|j: int| 0 <= j < s.len() ==> (#[trigger] s[j] as nat) < n
    &&& forall|k: u64| (k as nat) < n ==> #[trigger] s.contains(k)
}

/// What a draw leaves of `before` when it takes the identifier at `i`: the
/// last one moves into the hole, and the sequence loses its last place.
pub open spec fn after_draw(before: Seq<u64>, i: int) -> Seq<u64> {
    before.update(i, before.last()).drop_last()
}

/// `s` back to front.
pub open spec fn reversed(s: Seq<u64>) -> Seq<u64> {
    Seq::new(s.len(), |j: int| s[s.len() - 1 - j])
}

/// What `n` draws with the same random value `x` return from `before`, and
/// what they leave of it.
pub open spec fn draw_sequence(before: Seq<u64>, x: nat, n: nat) -> (Seq<u64>, Seq<u64>)
    decreases n,
{
    if n == 0 || before.len() == 0 {
        (Seq::empty(), before)
    } else {
        let i = (x % before.len()) as int;
        let rest = draw_sequence(after_draw(before, i), x, (n - 1) as nat);
        (seq![before[i]] + rest.0, rest.1)
    }
}

/// Draws identifiers from `0 .. size` without replacement.
///
/// Slot `i` holds the identifier stored under `i` in `items`, or `i` itself
/// when nothing is stored there, so a fresh raffle needs no initial writes.
pub struct Raffle {
    len: u64,
    items: HashMap<u64, u64>,
    size: Ghost<nat>,
    drawn: Ghost<Seq<u64>>,
}

impl Raffle {
    pub closed spec fn slot(&self, i: int) -> u64 {
        if self.items@.contains_key(i as u64) {
            self.items@[i as u64]
        } else {
            i as u64
        }
    }

    /// The identifiers not drawn yet, in slot order.
    pub closed spec fn remaining(&self) -> Seq<u64> {
        Seq::new(self.len as nat, |i: int| self.slot(i))
    }

    /// The identifiers drawn so far, the most recent first.
    pub closed spec fn drawn(&self) -> Seq<u64> {
        self.drawn@
    }

    /// How many identifiers the raffle started with.
    pub closed spec fn size(&self) -> nat {
        self.size@
    }

    pub closed spec fn wf(&self) -> bool {
        &&& self.len <= self.size@
        &&& is_permutation_of_range(self.remaining() + self.drawn@, self.size@)
    }

    pub fn new(len: u64) -> (r: Raffle)
        ensures
            r.wf(),
            r.size() == len,
            r.remaining() == Seq::new(len as nat, |i: int| i as u64),
            r.drawn() == Seq::<u64>::empty(),
    {
        let r = Raffle {
            len,
            items: HashMap::new(),
            size: Ghost(len as nat),
            drawn: Ghost(Seq::empty()),
        };
        proof {
            let s = r.remaining() + r.drawn@;
            assert(s =~= Seq::new(len as nat, |i: int| i as u64));
            assert forall|k: u64| (k as nat) < len implies #[trigger] s.contains(k) by {
                assert(s[k as int] == k);
            }
        }
        r
    }

    pub fn items_left(&self) -> (r: u64)
        ensures
            r == self.remaining().len(),
    {
        self.len
    }

    fn get_item(&self, key: u64) -> (r: u64)
        ensures
            r == self.slot(key as int),
    {
        match self.items.get(&key) {
            Some(v) => *v,
            None => key,
        }
    }

    fn set_item(&mut self, key: u64, value: u64)
        ensures
            final(self).items@ == old(self).items@.insert(key, value),
            final(self).len == old(self).len,
            final(self).size == old(self).size,
            final(self).drawn == old(self).drawn,
    {
        self.items.insert(key, value);
    }

    /// Takes one identifier out of the raffle: the one in the slot that
    /// `seed` selects among those left.
    pub fn draw(&mut self, seed: &Vec<u8>) -> (r: Result<u64, ContractError>)
        requires
            old(self).wf(),
            seed@.len() >= 8,
        ensures
            final(self).wf(),
            final(self).size() == old(self).size(),
            old(self).remaining().len() == 0 ==> {
                &&& r == Err::<u64, ContractError>(ContractError::ExhaustedPopulation)
                &&& final(self).remaining() == old(self).remaining()
                &&& final(self).drawn() == old(self).drawn()
            },
            old(self).remaining().len() > 0 ==> {
                let i = (le_value(seed@.subrange(0, 8)) % old(self).remaining().len()) as int;
                &&& r == Ok::<u64, ContractError>(old(self).remaining()[i])
                &&& final(self).remaining() == after_draw(old(self).remaining(), i)
                &&& final(self).drawn() == seq![old(self).remaining()[i]] + old(self).drawn()
            },
    {
        if self.len == 0 {
            return Err(ContractError::ExhaustedPopulation);
        }
        let ghost before = self.remaining();
        let i = get_random_number(seed, self.len);
        let result = self.get_item(i);
        let last = self.get_item(self.len - 1);
        self.set_item(i, last);
        self.len = self.len - 1;
        self.drawn = Ghost(seq![result] + self.drawn@);
        proof {
            let ii = i as int;
            let n = before.len() as int;
            assert(self.remaining() =~= after_draw(before, ii));
            let c = before + old(self).drawn@;
            let c2 = self.remaining() + self.drawn@;
            assert(c2 =~= c.update(ii, c[n - 1]).update(n - 1, c[ii]));
            lemma_swap_keeps_permutation(c, ii, n - 1, self.size@);
        }
        Ok(result)
    }
}

impl Raffle {
    /// Draws `n` identifiers with the same `seed`, or none at all when fewer
    /// than `n` are left.
    pub fn draw_many(&mut self, n: u64, seed: &Vec<u8>) -> (r: Result<Vec<u64>, ContractError>)
        requires
            old(self).wf(),
            seed@.len() >= 8,
        ensures
            final(self).wf(),
            final(self).size() == old(self).size(),
            n > old(self).remaining().len() ==> {
                &&& r == Err::<Vec<u64>, ContractError>(ContractError::ExhaustedPopulation)
                &&& final(self).remaining() == old(self).remaining()
                &&& final(self).drawn() == old(self).drawn()
            },
            n <= old(self).remaining().len() ==> {
                let d = draw_sequence(old(self).remaining(), le_value(seed@.subrange(0, 8)), n as nat);
                &&& r matches Ok(v) && v@ == d.0 && v@.len() == n
                    && final(self).drawn() == reversed(v@) + old(self).drawn()
                &&& final(self).remaining() == d.1
            },
    {
        if n > self.len {
            return Err(ContractError::ExhaustedPopulation);
        }
        let ghost x = le_value(seed@.subrange(0, 8));
        let ghost whole = draw_sequence(self.remaining(), x, n as nat);
        let mut ids: Vec<u64> = Vec::new();
        let mut k: u64 = 0;
        while k < n
            invariant
                self.wf(),
                self.size() == old(self).size(),
                seed@.len() >= 8,
                x == le_value(seed@.subrange(0, 8)),
                0 <= k <= n,
                self.remaining().len() >= n - k,
                ids@ + draw_sequence(self.remaining(), x, (n - k) as nat).0 == whole.0,
                ids@.len() == k,
                self.drawn() == reversed(ids@) + old(self).drawn(),
                draw_sequence(self.remaining(), x, (n - k) as nat).1 == whole.1,
            decreases n - k,
        {
            let ghost before = self.remaining();
            let ghost prev = ids@;
            let id = match self.draw(seed) {
                Ok(id) => id,
                Err(_) => {
                    return Err(ContractError::ExhaustedPopulation);
                },
            };
            ids.push(id);
            proof {
                let rest = draw_sequence(self.remaining(), x, (n - k - 1) as nat);
                assert(draw_sequence(before, x, (n - k) as nat).0 == seq![id] + rest.0);
                assert(ids@ + rest.0 =~= prev + (seq![id] + rest.0));
                assert(reversed(ids@) =~= seq![id] + reversed(prev));
                assert(self.drawn() =~= reversed(ids@) + old(self).drawn());
            }
            k = k + 1;
        }
        proof {
            assert(ids@ + draw_sequence(self.remaining(), x, 0).0 =~= ids@);
        }
        Ok(ids)
    }
}

proof fn lemma_swap_keeps_permutation(c: Seq<u64>, a: int, b: int, n: nat)
    requires
        is_permutation_of_range(c, n),
        0 <= a < c.len(),
        0 <= b < c.len(),
    ensures
        is_permutation_of_range(c.update(a, c[b]).update(b, c[a]), n),
{
    let d = c.update(a, c[b]).update(b, c[a]);
    let sw = |j: int|
        if j == a {
            b
        } else if j == b {
            a
        } else {
            j
        };
    assert forall|j: int| 0 <= j < d.len() implies d[j] == c[sw(j)] by {}
    assert forall|j: int, k: int| 0 <= j < d.len() && 0 <= k < d.len() && j != k implies d[j]
        != d[k] by {
        assert(d[j] == c[sw(j)]);
        assert(d[k] == c[sw(k)]);
    }
    assert forall|k: u64| (k as nat) < n implies #[trigger] d.contains(k) by {
        assert(c.contains(k));
        let j = choose|j: int| 0 <= j < c.len() && c[j] == k;
        assert(d[sw(j)] == c[sw(sw(j))]);
    }
    assert forall|j: int| 0 <= j < d.len() implies (#[trigger] d[j] as nat) < n by {
        assert(d[j] == c[sw(j)]);
    }
}

/// At every moment, the identifiers left and those drawn so far hold each
/// of `0 .. size` exactly once: no draw repeats an identifier, and none is
/// lost.
pub proof fn lemma_remaining_and_drawn_partition(r: &Raffle)
    requires
        r.wf(),
    ensures
        is_permutation_of_range(r.remaining() + r.drawn(), r.size()),
        r.remaining().no_duplicates(),
        r.drawn().no_duplicates(),
        forall|a: int, b: int|
            0 <= a < r.remaining().len() && 0 <= b < r.drawn().len() ==> r.remaining()[a]
                != r.drawn()[b],
{
    let c = r.remaining() + r.drawn();
    let n = r.remaining().len();
    assert forall|a: int, b: int|
        0 <= a < r.remaining().len() && 0 <= b < r.drawn().len() implies r.remaining()[a]
        != r.drawn()[b] by {
        assert(c[a] == r.remaining()[a]);
        assert(c[n + b] == r.drawn()[b]);
    }
    assert forall|a: int, b: int|
        0 <= a < r.remaining().len() && 0 <= b < r.remaining().len() && a != b implies r.remaining()[a]
        != r.remaining()[b] by {
        assert(c[a] == r.remaining()[a]);
        assert(c[b] == r.remaining()[b]);
    }
    assert forall|a: int, b: int|
        0 <= a < r.drawn().len() && 0 <= b < r.drawn().len() && a != b implies r.drawn()[a]
        != r.drawn()[b] by {
        assert(c[n + a] == r.drawn()[a]);
        assert(c[n + b] == r.drawn()[b]);
    }
}

/// Once every identifier has been drawn, the draws hold each of
/// `0 .. size` exactly once, and a further draw fails.
pub proof fn lemma_draws_are_permutation(r: &Raffle)
    requires
        r.wf(),
        r.remaining().len() == 0,
    ensures
        is_permutation_of_range(r.drawn(), r.size()),
        forall|k: u64|
            (k as nat) < r.size() ==> #[trigger] r.drawn().to_multiset().count(k) == 1,
{
    assert(r.remaining() + r.drawn() =~= r.drawn());
    let d = r.drawn();
    d.lemma_multiset_has_no_duplicates();
    assert forall|k: u64| (k as nat) < r.size() implies #[trigger] d.to_multiset().count(k)
        == 1 by {
        assert(d.contains(k));
        d.to_multiset_ensures();
    }
}

} // verus!
