//! The alias table: its construction from weighted items and the draw.
use vstd::prelude::*;
use crate::model::{
    lemma_mass_lower, lemma_mass_upper, lemma_push_mass, lemma_push_share,
    lemma_sum_weights_prefix, lemma_sum_weights_push, coprime, mass_of, share, sum_weights, total_mass,
};

verus! {

/// Scale of the coin handed to `Alias::select`: a coin `c` stands for `c / 2^32`.
pub const COIN_SCALE: u128 = 0x1_0000_0000;

/// Relies on `fraction::Fraction::new`, which for a non-zero denominator
/// puts the fraction into lowest terms with a positive denominator (through
/// `num_rational::Ratio::new`); its `numer` and `denom` hand back the two parts.
#[verifier::external_body]
fn lowest_terms(num: u64, den: u64) -> (r: (u64, u64))
    requires
        den > 0,
    ensures
        r.1 > 0,
        r.0 * den == num * r.1,
        coprime(r.0 as int, r.1 as int),
{
    let f = fraction::Fraction::new(num, den);
    (*f.numer().unwrap(), *f.denom().unwrap())
}

/// An item to choose with a given weight. Weights are relative: they are
/// normalized against the other weights when the table is built.
#[derive(Debug)]
pub struct WeightedTuple<T: Copy> {
    pub weight: u64,
    pub value: T,
}

impl<T: Copy> WeightedTuple<T> {
    /// Builds an immutable `WeightedTuple`.
    pub fn new(weight: u64, value: T) -> (r: WeightedTuple<T>)
        ensures
            r.weight == weight,
            r.value == value,
    {
        WeightedTuple { weight, value }
    }
}

/// The weights of `items`, in order.
pub open spec fn weights_of<T: Copy>(items: Seq<WeightedTuple<T>>) -> Seq<u64> {
    items.map_values(|t: WeightedTuple<T>| t.weight)
}

/// One slot of the table: the value it stays on and the chance of staying,
/// as a numerator over the table's total weight.
struct NormalizedWeightTuple<T> {
    fractional_weight: u128,
    value: T,
}

/// A table for drawing values with probability proportional to their weight.
///
/// All chances are exact fractions over one denominator, the sum of the
/// weights: the item of weight `w` among `n` items of total `s` has the
/// scaled weight `w * n / s`, and its numerator `w * n` is kept as an integer.
pub struct Alias<T: Copy> {
    probabilities: Vec<NormalizedWeightTuple<T>>,
    aliases: Vec<T>,
    total: u64,
    /// For each slot: its threshold, the item it stays on, the item it falls through to.
    plan: Ghost<Seq<(int, int, int)>>,
}

/// The error of building a table from no items at all.
#[derive(Debug, Clone)]
pub struct AliasCreationError {
    message: String,
}

impl AliasCreationError {
    /// The text that the error carries.
    pub closed spec fn text(&self) -> Seq<char> {
        self.message@
    }

    /// The human-readable description of the error.
    pub fn message(&self) -> (r: String)
        ensures
            r@ == self.text(),
    {
        self.message.clone()
    }
}

impl<T: Copy> Alias<T> {
    /// Number of slots, which is the number of items the table was built from.
    pub closed spec fn size(&self) -> nat {
        self.probabilities@.len()
    }

    /// The denominator of every threshold: the sum of the weights.
    pub closed spec fn total(&self) -> int {
        self.total as int
    }

    /// The numerator of the chance of staying on slot `i`.
    pub closed spec fn threshold(&self, i: int) -> int {
        self.probabilities@[i].fractional_weight as int
    }

    /// The value that slot `i` stays on.
    pub closed spec fn stay_value(&self, i: int) -> T {
        self.probabilities@[i].value
    }

    /// The value that slot `i` falls through to.
    pub closed spec fn alias_value(&self, i: int) -> T {
        self.aliases@[i]
    }

    /// The input item that slot `i` stays on.
    pub closed spec fn stay_item(&self, i: int) -> int {
        self.plan@[i].1
    }

    /// The input item that slot `i` falls through to.
    pub closed spec fn alias_item(&self, i: int) -> int {
        self.plan@[i].2
    }

    /// Chance that a draw lands on input item `j`, in units of `1 / (len * total)`.
    pub closed spec fn share(&self, j: int) -> int {
        share(self.plan@, self.total as int, j)
    }

    /// A table whose slots all have a threshold of at most the total, and
    /// an alias wherever the threshold falls short of the total.
    pub closed spec fn wf(&self) -> bool {
        &&& self.probabilities@.len() > 0
        &&& self.plan@.len() == self.probabilities@.len()
        &&& self.aliases@.len() <= self.probabilities@.len()
        &&& forall|i: int|
            0 <= i < self.plan@.len() ==> {
                &&& self.plan@[i].0 == self.probabilities@[i].fractional_weight
                &&& self.plan@[i].0 <= self.total
                &&& i >= self.aliases@.len() ==> self.plan@[i].0 == self.total
            }
    }

    /// The value that a draw returns for the die roll `die` and the coin
    /// `coin / 2^32`: slot `die % len` keeps its own value when the coin is at
    /// most its chance of staying, and gives its alias otherwise.
    pub open spec fn outcome(&self, die: int, coin: int) -> T {
        let i = die % (self.size() as int);
        if coin * self.total() <= self.threshold(i) * COIN_SCALE {
            self.stay_value(i)
        } else {
            self.alias_value(i)
        }
    }

    /// The table holds one slot per item of `items`, each slot's values are
    /// values of the items it names, and every item gets exactly its weight's
    /// share of the draws.
    pub open spec fn built_from(&self, items: Seq<WeightedTuple<T>>) -> bool {
        let n = items.len() as int;
        &&& self.wf()
        &&& self.size() == n
        &&& self.total() == sum_weights(weights_of(items))
        &&& forall|i: int|
            0 <= i < n ==> {
                &&& 0 <= #[trigger] self.stay_item(i) < n
                &&& 0 <= self.alias_item(i) < n
                &&& self.stay_value(i) == items[self.stay_item(i)].value
                &&& self.threshold(i) < self.total() ==> self.alias_value(i)
                    == items[self.alias_item(i)].value
            }
        &&& forall|j: int| 0 <= j < n ==> #[trigger] self.share(j) == items[j].weight * n
    }

    /// Builds the table from weighted items.
    ///
    /// Fails exactly when `items` is empty. Otherwise every item gets the
    /// share `weight / sum` of the draws, computed without rounding. When all
    /// weights are zero every slot keeps its own value, whatever the coin.
    pub fn from_weighted_tuples(items: &[WeightedTuple<T>]) -> (r: Result<Alias<T>, AliasCreationError>)
        requires
            sum_weights(weights_of(items@)) <= u64::MAX,
        ensures
            items@.len() == 0 <==> r is Err,
            r matches Err(e) ==> e.text() == "no weighted tuples were provided"@,
            r matches Ok(t) ==> t.built_from(items@),
            r matches Ok(t) ==> (t.total() == 0 ==> forall|i: int|
                0 <= i < items@.len() ==> #[trigger] t.threshold(i) == t.total()),
    {
        let n = items.len();
        if n == 0 {
            return Err(AliasCreationError { message: "no weighted tuples were provided".to_owned() });
        }
        let ghost ws = weights_of(items@);
        let mut sum: u64 = 0;
        let mut i: usize = 0;
        while i < n
            invariant
                n == items@.len(),
                ws == weights_of(items@),
                sum_weights(ws) <= u64::MAX,
                0 <= i <= n,
                sum == sum_weights(ws.take(i as int)),
            decreases n - i,
        {
            proof {
                assert(ws.take(i + 1) =~= ws.take(i as int).push(items@[i as int].weight));
                lemma_sum_weights_push(ws.take(i as int), items@[i as int].weight);
                lemma_sum_weights_prefix(ws, i + 1);
            }
            sum = sum + items[i].weight;
            i = i + 1;
        }
        assert(ws.take(n as int) =~= ws);
        let ghost s = sum as int;
        let ghost nn = n as int;
        let big: u128 = sum as u128;

        // Split the items by whether their scaled weight falls below one.
        let mut small: Vec<(u128, usize)> = Vec::new();
        let mut large: Vec<(u128, usize)> = Vec::new();
        let mut i: usize = 0;
        while i < n
            invariant
                n == items@.len(),
                ws == weights_of(items@),
                nn == n,
                s == sum_weights(ws),
                big == s,
                0 <= s <= u64::MAX,
                0 <= i <= n,
                total_mass(small@) + total_mass(large@) == nn * sum_weights(ws.take(i as int)),
                small@.len() + large@.len() == i,
                forall|j: int| 0 <= j < nn ==> mass_of(small@, j) + mass_of(large@, j)
                    == if j < i { items@[j].weight * nn } else { 0 },
                forall|k: int| 0 <= k < small@.len() ==> small@[k].0 < s && small@[k].1 < i,
                forall|k: int| 0 <= k < large@.len() ==> large@[k].0 >= s && large@[k].1 < i,
            decreases n - i,
        {
            let w = items[i].weight;
            proof {
                assert(ws.take(i + 1) =~= ws.take(i as int).push(w));
                lemma_sum_weights_push(ws.take(i as int), w);
                assert((w as int) * (n as int) <= u64::MAX * u64::MAX) by (nonlinear_arith)
                    requires w <= u64::MAX, n <= u64::MAX;
                assert(nn * (sum_weights(ws.take(i as int)) + w) == nn * sum_weights(ws.take(i as int)) + w * nn)
                    by (nonlinear_arith);
            }
            let scaled: u128 = (w as u128) * (n as u128);
            let entry = (scaled, i);
            proof {
                assert forall|j: int| 0 <= j < nn implies mass_of(small@.push(entry), j) == mass_of(small@, j)
                    + if j == i { scaled as int } else { 0 } by {
                    lemma_push_mass(small@, entry, j);
                }
                assert forall|j: int| 0 <= j < nn implies mass_of(large@.push(entry), j) == mass_of(large@, j)
                    + if j == i { scaled as int } else { 0 } by {
                    lemma_push_mass(large@, entry, j);
                }
                lemma_push_mass(small@, entry, 0);
                lemma_push_mass(large@, entry, 0);
            }
            if scaled < big {
                small.push(entry);
            } else {
                large.push(entry);
            }
            i = i + 1;
        }
        assert(ws.take(n as int) =~= ws);
        assert(total_mass(small@) + total_mass(large@) == (small@.len() + large@.len()) * s);
        assert(nn * s <= u64::MAX * u64::MAX) by (nonlinear_arith)
            requires nn <= u64::MAX, 0 <= s <= u64::MAX;

        let mut probabilities: Vec<NormalizedWeightTuple<T>> = Vec::new();
        let mut aliases: Vec<T> = Vec::new();
        let ghost mut plan: Seq<(int, int, int)> = Seq::empty();
        // Pair a slot short of one with an item above one, which covers the
        // shortfall and keeps what is left.
        while small.len() > 0 && large.len() > 0
            invariant
                n == items@.len(),
                nn == n,
                big == s,
                0 <= s <= u64::MAX,
                nn * s <= u64::MAX * u64::MAX,
                probabilities@.len() == aliases@.len(),
                plan.len() == probabilities@.len(),
                s == 0 ==> plan.len() == 0,
                probabilities@.len() + small@.len() + large@.len() == nn,
                total_mass(small@) + total_mass(large@) == (small@.len() + large@.len()) * s,
                forall|j: int| 0 <= j < nn ==> share(plan, s, j) + mass_of(small@, j) + mass_of(large@, j)
                    == items@[j].weight * nn,
                forall|k: int| 0 <= k < small@.len() ==> small@[k].0 < s && small@[k].1 < nn,
                forall|k: int| 0 <= k < large@.len() ==> large@[k].0 >= s && large@[k].1 < nn,
                forall|k: int| 0 <= k < plan.len() ==> {
                    &&& (#[trigger] plan[k]).0 == probabilities@[k].fractional_weight
                    &&& plan[k].0 <= s
                    &&& 0 <= plan[k].1 < nn
                    &&& 0 <= plan[k].2 < nn
                    &&& probabilities@[k].value == items@[plan[k].1].value
                    &&& aliases@[k] == items@[plan[k].2].value
                },
            decreases small@.len() + large@.len(),
        {
            let ghost small0 = small@;
            let ghost large0 = large@;
            let (low, l) = small.pop().unwrap();
            let (high, g) = large.pop().unwrap();
            assert(small0 =~= small@.push((low, l)));
            assert(large0 =~= large@.push((high, g)));
            assert(small0[small0.len() - 1] == (low, l));
            assert(large0[large0.len() - 1] == (high, g));
            assert(forall|k: int| 0 <= k < small@.len() ==> small@[k] == small0[k]);
            assert(forall|k: int| 0 <= k < large@.len() ==> large@[k] == large0[k]);
            let ghost probabilities0 = probabilities@;
            let ghost aliases0 = aliases@;
            probabilities.push(NormalizedWeightTuple { fractional_weight: low, value: items[l].value });
            aliases.push(items[g].value);
            assert(forall|k: int| 0 <= k < probabilities0.len() ==> probabilities@[k] == probabilities0[k]);
            assert(forall|k: int| 0 <= k < aliases0.len() ==> aliases@[k] == aliases0[k]);
            let reduced: u128 = high - (big - low);
            let entry = (reduced, g);
            let ghost slot = (low as int, l as int, g as int);
            proof {
                assert forall|j: int| 0 <= j < nn implies share(plan.push(slot), s, j) + mass_of(small@, j)
                    + mass_of(large@, j) + (if j == g { reduced as int } else { 0 })
                    == items@[j].weight * nn by {
                    lemma_push_share(plan, s, slot, j);
                    lemma_push_mass(small@, (low, l), j);
                    lemma_push_mass(large@, (high, g), j);
                }
                lemma_push_mass(small@, (low, l), 0);
                lemma_push_mass(large@, (high, g), 0);
                assert forall|j: int| 0 <= j < nn implies mass_of(small@.push(entry), j) == mass_of(small@, j)
                    + if j == g { reduced as int } else { 0 } by {
                    lemma_push_mass(small@, entry, j);
                }
                assert forall|j: int| 0 <= j < nn implies mass_of(large@.push(entry), j) == mass_of(large@, j)
                    + if j == g { reduced as int } else { 0 } by {
                    lemma_push_mass(large@, entry, j);
                }
                lemma_push_mass(small@, entry, 0);
                lemma_push_mass(large@, entry, 0);
                let k = small0.len() + large0.len();
                assert((k - 1) * s + s == k * s) by (nonlinear_arith);
                plan = plan.push(slot);
            }
            if reduced < big {
                small.push(entry);
            } else {
                large.push(entry);
            }
        }
        proof {
            if small@.len() > 0 {
                lemma_mass_upper(small@, s);
                assert(large@.len() == 0);
                assert(total_mass(large@) == 0);
            }
        }
        assert(small@.len() == 0);
        let ghost paired = aliases@.len();

        // What is left is exactly one slot's worth per item.
        while large.len() > 0
            invariant
                n == items@.len(),
                nn == n,
                big == s,
                0 <= s <= u64::MAX,
                paired == aliases@.len(),
                paired <= probabilities@.len(),
                s == 0 ==> paired == 0,
                plan.len() == probabilities@.len(),
                probabilities@.len() + large@.len() == nn,
                total_mass(large@) == large@.len() * s,
                forall|j: int| 0 <= j < nn ==> share(plan, s, j) + mass_of(large@, j) == items@[j].weight * nn,
                forall|k: int| 0 <= k < large@.len() ==> large@[k].0 >= s && large@[k].1 < nn,
                forall|k: int| 0 <= k < plan.len() ==> {
                    &&& (#[trigger] plan[k]).0 == probabilities@[k].fractional_weight
                    &&& plan[k].0 <= s
                    &&& 0 <= plan[k].1 < nn
                    &&& 0 <= plan[k].2 < nn
                    &&& probabilities@[k].value == items@[plan[k].1].value
                    &&& k < paired ==> aliases@[k] == items@[plan[k].2].value
                    &&& k >= paired ==> plan[k].0 == s
                },
            decreases large@.len(),
        {
            let ghost large0 = large@;
            let (high, g) = large.pop().unwrap();
            assert(large0 =~= large@.push((high, g)));
            proof {
                lemma_push_mass(large@, (high, g), 0);
                assert(forall|k: int| 0 <= k < large@.len() ==> large@[k] == large0[k]);
                lemma_mass_lower(large@, s);
                let k = large0.len() as int;
                assert((k - 1) * s + s == k * s) by (nonlinear_arith);
            }
            assert(large0[large0.len() - 1] == (high, g));
            assert(high == big);
            let ghost probabilities0 = probabilities@;
            probabilities.push(NormalizedWeightTuple { fractional_weight: big, value: items[g].value });
            assert(forall|k: int| 0 <= k < probabilities0.len() ==> probabilities@[k] == probabilities0[k]);
            let ghost slot = (s, g as int, g as int);
            proof {
                assert forall|j: int| 0 <= j < nn implies share(plan.push(slot), s, j) + mass_of(large@, j)
                    == items@[j].weight * nn by {
                    lemma_push_share(plan, s, slot, j);
                    lemma_push_mass(large@, (high, g), j);
                }
                plan = plan.push(slot);
            }
        }
        let t = Alias { probabilities, aliases, total: sum, plan: Ghost(plan) };
        assert(s == 0 ==> forall|i: int| 0 <= i < nn ==> #[trigger] t.threshold(i) == plan[i].0 && plan[i].0 == s);
        Ok(t)
    }

    /// Draws one value, given a die roll `die` and a coin `coin` that stands
    /// for `coin / 2^32`, a point of `[0, 1)`. The slot `die % len` keeps its
    /// own value when the coin is at most its chance of staying, and gives its
    /// alias otherwise.
    pub fn select(&self, die: usize, coin: u32) -> (r: T)
        requires
            self.wf(),
        ensures
            r == self.outcome(die as int, coin as int),
    {
        let n = self.probabilities.len();
        let i = die % n;
        let slot = &self.probabilities[i];
        proof {
            let c = coin as int;
            let t = self.total as int;
            let p = slot.fractional_weight as int;
            assert(self.plan@[i as int].0 == p);
            assert(c * t <= COIN_SCALE * 0x1_0000_0000_0000_0000) by (nonlinear_arith)
                requires 0 <= c < COIN_SCALE, 0 <= t <= u64::MAX;
            assert(p * COIN_SCALE <= COIN_SCALE * 0x1_0000_0000_0000_0000) by (nonlinear_arith)
                requires 0 <= p <= t <= u64::MAX;
        }
        if (coin as u128) * (self.total as u128) <= slot.fractional_weight * COIN_SCALE {
            slot.value
        } else {
            proof {
                let c = coin as int;
                let t = self.total as int;
                assert(c * t <= t * COIN_SCALE) by (nonlinear_arith)
                    requires 0 <= c < COIN_SCALE, 0 <= t;
            }
            self.aliases[i]
        }
    }

    /// Number of slots, one per item the table was built from.
    pub fn len(&self) -> (r: usize)
        ensures
            r == self.size(),
    {
        self.probabilities.len()
    }

    /// The chance of staying on slot `i`, as a fraction in lowest terms:
    /// numerator and positive denominator. With a total weight of zero every
    /// slot stays, which is the chance one.
    pub fn probability(&self, i: usize) -> (r: (u64, u64))
        requires
            self.wf(),
            i < self.size(),
        ensures
            r.1 > 0,
            coprime(r.0 as int, r.1 as int),
            self.total() > 0 ==> r.0 * self.total() == self.threshold(i as int) * r.1,
            self.total() == 0 ==> r == (1u64, 1u64),
    {
        if self.total == 0 {
            assert forall|d: int| d > 1 implies !(#[trigger] (1int % d) == 0 && 1int % d == 0) by {
                assert(1int % d == 1) by (nonlinear_arith)
                    requires d > 1;
            }
            return (1, 1);
        }
        assert(self.plan@[i as int].0 == self.probabilities@[i as int].fractional_weight);
        lowest_terms(self.probabilities[i].fractional_weight as u64, self.total)
    }
}

/// Every draw from a table built from `items` lands on item `j` with chance
/// exactly `weight_j / total`: its share of the `len * total` equally likely
/// units is `weight_j * len`.
pub proof fn lemma_chance_of_item<T: Copy>(t: Alias<T>, items: Seq<WeightedTuple<T>>, j: int)
    requires
        t.built_from(items),
        t.total() > 0,
        0 <= j < items.len(),
    ensures
        t.share(j) * t.total() == items[j].weight * (t.size() * t.total()),
{
    let n = t.size() as int;
    assert(t.share(j) == items[j].weight * n);
    assert((items[j].weight * n) * t.total() == items[j].weight * (n * t.total())) by (nonlinear_arith);
}

/// A table built from a single item returns that item's value on every
/// draw, whatever the die and the coin.
pub proof fn lemma_single_item_always_drawn<T: Copy>(
    t: Alias<T>,
    items: Seq<WeightedTuple<T>>,
    die: int,
    coin: int,
)
    requires
        items.len() == 1,
        t.built_from(items),
        0 <= die,
        0 <= coin < COIN_SCALE,
    ensures
        t.outcome(die, coin) == items[0].value,
{
    assert(die % 1 == 0);
    assert(t.stay_item(0) == 0);
    if t.threshold(0) < t.total() {
        assert(t.alias_item(0) == 0);
    } else {
        let c = coin;
        let s = t.total();
        assert(c * s <= s * COIN_SCALE) by (nonlinear_arith)
            requires 0 <= c < COIN_SCALE, 0 <= s;
    }
}

/// Every draw returns the value of one of the items the table was built from.
pub proof fn lemma_draw_is_an_input_value<T: Copy>(
    t: Alias<T>,
    items: Seq<WeightedTuple<T>>,
    die: int,
    coin: int,
)
    requires
        t.built_from(items),
        0 <= die,
        0 <= coin < COIN_SCALE,
    ensures
        exists|j: int| 0 <= j < items.len() && t.outcome(die, coin) == #[trigger] items[j].value,
{
    let n = t.size() as int;
    let i = die % n;
    assert(0 <= i < n);
    assert(0 <= t.stay_item(i) < n);
    if coin * t.total() <= t.threshold(i) * COIN_SCALE {
        assert(t.outcome(die, coin) == items[t.stay_item(i)].value);
    } else {
        assert(t.threshold(i) < t.total()) by {
            if t.threshold(i) >= t.total() {
                let c = coin;
                let s = t.total();
                let p = t.threshold(i);
                assert(c * s <= p * COIN_SCALE) by (nonlinear_arith)
                    requires 0 <= c < COIN_SCALE, 0 <= s <= p;
            }
        }
        assert(t.outcome(die, coin) == items[t.alias_item(i)].value);
    }
}

/// Total share of the items `0..m` of table `t`.
pub open spec fn shares_below<T: Copy>(t: Alias<T>, m: nat) -> int
    decreases m,
{
    if m == 0 {
        0
    } else {
        shares_below(t, (m - 1) as nat) + t.share(m - 1)
    }
}

/// The shares of all items of a table add up to the whole: the chances of
/// drawing each item sum to one.
pub proof fn lemma_chances_sum_to_one<T: Copy>(t: Alias<T>, items: Seq<WeightedTuple<T>>)
    requires
        t.built_from(items),
    ensures
        shares_below(t, items.len()) == t.size() * t.total(),
{
    lemma_shares_prefix(t, items, items.len());
    assert(weights_of(items).take(items.len() as int) =~= weights_of(items));
}

proof fn lemma_shares_prefix<T: Copy>(t: Alias<T>, items: Seq<WeightedTuple<T>>, m: nat)
    requires
        t.built_from(items),
        m <= items.len(),
    ensures
        shares_below(t, m) == t.size() * sum_weights(weights_of(items).take(m as int)),
    decreases m,
{
    let ws = weights_of(items);
    let n = t.size() as int;
    if m == 0 {
        assert(ws.take(0) =~= Seq::<u64>::empty());
    } else {
        lemma_shares_prefix(t, items, (m - 1) as nat);
        assert(ws.take(m as int) =~= ws.take(m - 1).push(items[m - 1].weight));
        lemma_sum_weights_push(ws.take(m - 1), items[m - 1].weight);
        assert(t.share(m - 1) == items[m - 1].weight * n);
        let a = sum_weights(ws.take(m - 1));
        let w = items[m - 1].weight as int;
        assert(n * a + w * n == n * (a + w)) by (nonlinear_arith);
    }
}

} // verus!
