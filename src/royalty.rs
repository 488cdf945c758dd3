use vstd::prelude::*;

use crate::error::ContractError;

verus! {

/// A share in basis points: `PERCENTAGE_BASIS` is the whole.
pub type Percentage = u16;

pub const PERCENTAGE_BASIS: Percentage = 10_000;

/// The most accounts that a royalty may name.
pub const MAX_ROYALTY_ACCOUNTS: usize = 10;

/// How the royalty part of a payment is split: each account with its share,
/// in basis points. Each account appears at most once.
pub type RoyaltyMap = Vec<(String, Percentage)>;

/// A royalty map as account names and shares.
pub open spec fn shares_view(m: Seq<(String, Percentage)>) -> Seq<(Seq<char>, nat)> {
    Seq::new(m.len(), |i: int| (m[i].0@, m[i].1 as nat))
}

/// No account appears twice.
pub open spec fn accounts_unique(m: Seq<(Seq<char>, nat)>) -> bool {
    forall|i: int, j: int| 0 <= i < m.len() && 0 <= j < m.len() && i != j ==> m[i].0 != m[j].0
}

pub open spec fn has_account(m: Seq<(Seq<char>, nat)>, a: Seq<char>) -> bool {
    exists|i: int| 0 <= i < m.len() && m[i].0 == a
}

/// The sum of the shares (or amounts) of a map.
pub open spec fn amount_sum(m: Seq<(Seq<char>, nat)>) -> nat
    decreases m.len(),
{
    if m.len() == 0 {
        0
    } else {
        amount_sum(m.drop_last()) + m.last().1
    }
}

/// `percent` basis points of `amount`, rounded down.
pub open spec fn percent_of(amount: nat, percent: nat) -> nat {
    amount * percent / (PERCENTAGE_BASIS as nat)
}

/// The rules a royalty must meet.
pub open spec fn valid_royalty(m: Seq<(Seq<char>, nat)>, rate: nat) -> bool {
    &&& rate <= PERCENTAGE_BASIS
    &&& m.len() <= MAX_ROYALTY_ACCOUNTS
    &&& amount_sum(m) == PERCENTAGE_BASIS
}

/// A validated royalty: who shares the royalty part, and how large that
/// part is.
pub struct Royalty {
    royalties: RoyaltyMap,
    royalty_rate: Percentage,
}

impl Royalty {
    /// The accounts and their shares.
    pub closed spec fn shares(&self) -> Seq<(Seq<char>, nat)> {
        shares_view(self.royalties@)
    }

    /// The part of a payment that goes to the royalty accounts.
    pub closed spec fn rate(&self) -> nat {
        self.royalty_rate as nat
    }

    pub open spec fn wf(&self) -> bool {
        &&& valid_royalty(self.shares(), self.rate())
        &&& accounts_unique(self.shares())
    }

    pub fn new(royalties: RoyaltyMap, royalty_rate: Percentage) -> (r: Result<Royalty, ContractError>)
        requires
            accounts_unique(shares_view(royalties@)),
        ensures
            r is Ok <==> valid_royalty(shares_view(royalties@), royalty_rate as nat),
            r matches Ok(x) ==> x.wf() && x.shares() == shares_view(royalties@) && x.rate()
                == royalty_rate,
            r matches Err(e) ==> e == ContractError::InvalidRoyaltyConfig,
    {
        match Self::assert_valid_royalties(&royalties, royalty_rate) {
            Ok(()) => Ok(Royalty { royalties, royalty_rate }),
            Err(e) => Err(e),
        }
    }

    pub fn get_royalties(&self) -> (r: &RoyaltyMap)
        ensures
            shares_view(r@) == self.shares(),
    {
        &self.royalties
    }

    pub fn royalty_rate(&self) -> (r: Percentage)
        ensures
            r == self.rate(),
    {
        self.royalty_rate
    }

    fn assert_valid_royalties(royalties: &RoyaltyMap, royalty_rate: Percentage) -> (r: Result<
        (),
        ContractError,
    >)
        ensures
            r is Ok <==> valid_royalty(shares_view(royalties@), royalty_rate as nat),
            r matches Err(e) ==> e == ContractError::InvalidRoyaltyConfig,
    {
        if royalty_rate > PERCENTAGE_BASIS {
            return Err(ContractError::InvalidRoyaltyConfig);
        }
        if royalties.len() > MAX_ROYALTY_ACCOUNTS {
            return Err(ContractError::InvalidRoyaltyConfig);
        }
        let mut sum: u32 = 0;
        let mut i: usize = 0;
        while i < royalties.len()
            invariant
                royalties.len() <= MAX_ROYALTY_ACCOUNTS,
                0 <= i <= royalties.len(),
                sum as nat == amount_sum(shares_view(royalties@).subrange(0, i as int)),
                sum <= 65_535 * i,
            decreases royalties.len() - i,
        {
            proof {
                let v = shares_view(royalties@);
                assert(v.subrange(0, i + 1).drop_last() =~= v.subrange(0, i as int));
            }
            sum = sum + royalties[i].1 as u32;
            i = i + 1;
        }
        assert(shares_view(royalties@).subrange(0, i as int) =~= shares_view(royalties@));
        if sum != PERCENTAGE_BASIS as u32 {
            return Err(ContractError::InvalidRoyaltyConfig);
        }
        Ok(())
    }
}

/// The part of `total` that goes to the royalty accounts.
pub open spec fn pool_of(total: nat, rate: nat) -> nat {
    percent_of(total, rate)
}

/// The products that a payout computes fit in a `u128`.
pub open spec fn payout_fits(total: nat, m: Seq<(Seq<char>, nat)>, rate: nat) -> bool {
    &&& total * rate <= u128::MAX
    &&& forall|i: int| 0 <= i < m.len() ==> pool_of(total, rate) * #[trigger] m[i].1 <= u128::MAX
}

/// The pool shares of the accounts of `m` other than `beneficiary`, each
/// rounded down, added up.
pub open spec fn others_share(m: Seq<(Seq<char>, nat)>, beneficiary: Seq<char>, pool: nat) -> nat
    decreases m.len(),
{
    if m.len() == 0 {
        0
    } else {
        others_share(m.drop_last(), beneficiary, pool) + if m.last().0 == beneficiary {
            0
        } else {
            percent_of(pool, m.last().1)
        }
    }
}

/// What the beneficiary receives: the whole total but the shares of the
/// other royalty accounts, so that any rounding remainder stays with it.
pub open spec fn beneficiary_amount(
    total: nat,
    beneficiary: Seq<char>,
    m: Seq<(Seq<char>, nat)>,
    rate: nat,
) -> nat {
    (total - others_share(m, beneficiary, pool_of(total, rate))) as nat
}

/// One entry per royalty account: its share of the pool, or `b` for the
/// beneficiary.
pub open spec fn lines_with(m: Seq<(Seq<char>, nat)>, beneficiary: Seq<char>, pool: nat, b: nat) -> Seq<
    (Seq<char>, nat),
> {
    Seq::new(
        m.len(),
        |i: int|
            (m[i].0, if m[i].0 == beneficiary {
                b
            } else {
                percent_of(pool, m[i].1)
            }),
    )
}

/// What a payment of `total` to `beneficiary` pays to whom: the royalty
/// accounts in their order, then the beneficiary unless it is one of them.
pub open spec fn payout_of(total: nat, beneficiary: Seq<char>, m: Seq<(Seq<char>, nat)>, rate: nat) -> Seq<
    (Seq<char>, nat),
> {
    let b = beneficiary_amount(total, beneficiary, m, rate);
    let lines = lines_with(m, beneficiary, pool_of(total, rate), b);
    if has_account(m, beneficiary) {
        lines
    } else {
        lines.push((beneficiary, b))
    }
}

/// Payout entries as account names and amounts.
pub open spec fn entries_view(v: Seq<(String, u128)>) -> Seq<(Seq<char>, nat)> {
    Seq::new(v.len(), |i: int| (v[i].0@, v[i].1 as nat))
}

/// How many tokens each party of a sale receives.
pub struct Payout {
    pub payout: Vec<(String, u128)>,
}

impl View for Payout {
    type V = Seq<(Seq<char>, nat)>;

    open spec fn view(&self) -> Seq<(Seq<char>, nat)> {
        entries_view(self.payout@)
    }
}

proof fn lemma_percent_le(amount: nat, percent: nat)
    requires
        percent <= PERCENTAGE_BASIS,
    ensures
        percent_of(amount, percent) <= amount,
{
    assert(amount * percent / 10000 <= amount) by (nonlinear_arith)
        requires
            percent <= 10000,
    ;
}

/// `percent` basis points of `amount`, rounded down.
fn apply_percent(amount: u128, percent: &Percentage) -> (r: u128)
    requires
        amount * *percent <= u128::MAX,
    ensures
        r == percent_of(amount as nat, *percent as nat),
{
    amount * (*percent as u128) / (PERCENTAGE_BASIS as u128)
}

/// The pool shares of the accounts of `m`, each rounded down, added up.
pub open spec fn share_sum(m: Seq<(Seq<char>, nat)>, pool: nat) -> nat
    decreases m.len(),
{
    if m.len() == 0 {
        0
    } else {
        share_sum(m.drop_last(), pool) + percent_of(pool, m.last().1)
    }
}

proof fn lemma_share_sum_bound(m: Seq<(Seq<char>, nat)>, pool: nat)
    ensures
        share_sum(m, pool) * PERCENTAGE_BASIS <= pool * amount_sum(m),
    decreases m.len(),
{
    if m.len() > 0 {
        let d = m.drop_last();
        lemma_share_sum_bound(d, pool);
        let p = m.last().1;
        let sp = percent_of(pool, p);
        assert(sp * 10000 <= pool * p) by (nonlinear_arith)
            requires
                sp == pool * p / 10000,
        ;
        assert(pool * amount_sum(m) == pool * amount_sum(d) + pool * p) by (nonlinear_arith)
            requires
                amount_sum(m) == amount_sum(d) + p,
        ;
        assert(share_sum(m, pool) * 10000 == share_sum(d, pool) * 10000 + sp * 10000) by (
        nonlinear_arith)
            requires
                share_sum(m, pool) == share_sum(d, pool) + sp,
        ;
    } else {
        assert(pool * amount_sum(m) == 0) by (nonlinear_arith)
            requires
                amount_sum(m) == 0,
        ;
    }
}

proof fn lemma_others_le_share_sum(m: Seq<(Seq<char>, nat)>, beneficiary: Seq<char>, pool: nat)
    ensures
        others_share(m, beneficiary, pool) <= share_sum(m, pool),
    decreases m.len(),
{
    if m.len() > 0 {
        lemma_others_le_share_sum(m.drop_last(), beneficiary, pool);
    }
}

/// The shares of the other accounts never exceed the pool, which never
/// exceeds the total.
proof fn lemma_others_within_pool(
    total: nat,
    beneficiary: Seq<char>,
    m: Seq<(Seq<char>, nat)>,
    rate: nat,
)
    requires
        rate <= PERCENTAGE_BASIS,
        amount_sum(m) <= PERCENTAGE_BASIS,
    ensures
        others_share(m, beneficiary, pool_of(total, rate)) <= pool_of(total, rate),
        pool_of(total, rate) <= total,
{
    let pool = pool_of(total, rate);
    lemma_percent_le(total, rate);
    lemma_others_le_share_sum(m, beneficiary, pool);
    lemma_share_sum_bound(m, pool);
    assert(share_sum(m, pool) <= pool) by (nonlinear_arith)
        requires
            share_sum(m, pool) * 10000 <= pool * amount_sum(m),
            amount_sum(m) <= 10000,
    ;
}

proof fn lemma_others_prefix(m: Seq<(Seq<char>, nat)>, beneficiary: Seq<char>, pool: nat, i: int)
    requires
        0 <= i <= m.len(),
    ensures
        others_share(m.subrange(0, i), beneficiary, pool) <= others_share(m, beneficiary, pool),
    decreases m.len(),
{
    if i < m.len() {
        let d = m.drop_last();
        assert(d.subrange(0, i) =~= m.subrange(0, i));
        lemma_others_prefix(d, beneficiary, pool, i);
    } else {
        assert(m.subrange(0, i) =~= m);
    }
}

proof fn lemma_lines_sum(m: Seq<(Seq<char>, nat)>, beneficiary: Seq<char>, pool: nat, b: nat)
    requires
        accounts_unique(m),
    ensures
        amount_sum(lines_with(m, beneficiary, pool, b)) == others_share(m, beneficiary, pool)
            + if has_account(m, beneficiary) {
            b
        } else {
            0
        },
    decreases m.len(),
{
    if m.len() > 0 {
        let d = m.drop_last();
        assert(lines_with(m, beneficiary, pool, b).drop_last() =~= lines_with(d, beneficiary, pool, b));
        lemma_lines_sum(d, beneficiary, pool, b);
        if has_account(d, beneficiary) {
            let j = choose|j: int| 0 <= j < d.len() && d[j].0 == beneficiary;
            assert(m[j].0 == beneficiary);
            assert(m.last().0 != beneficiary);
            assert(has_account(m, beneficiary));
        } else if m.last().0 == beneficiary {
            assert(has_account(m, beneficiary));
        } else {
            assert forall|j: int| 0 <= j < m.len() implies m[j].0 != beneficiary by {
                if j < d.len() {
                    assert(d[j] == m[j]);
                }
            }
        }
    }
}

/// Every payout adds up to exactly the total it splits: the beneficiary
/// receives what the royalty shares, rounded down, leave of it.
pub proof fn lemma_payout_conserves_total(
    total: nat,
    beneficiary: Seq<char>,
    m: Seq<(Seq<char>, nat)>,
    rate: nat,
)
    requires
        rate <= PERCENTAGE_BASIS,
        amount_sum(m) <= PERCENTAGE_BASIS,
        accounts_unique(m),
    ensures
        amount_sum(payout_of(total, beneficiary, m, rate)) == total,
{
    let pool = pool_of(total, rate);
    let b = beneficiary_amount(total, beneficiary, m, rate);
    lemma_others_within_pool(total, beneficiary, m, rate);
    lemma_lines_sum(m, beneficiary, pool, b);
    if !has_account(m, beneficiary) {
        let p = payout_of(total, beneficiary, m, rate);
        assert(p.drop_last() =~= lines_with(m, beneficiary, pool, b));
    }
}

/// With no royalty accounts the payout is the single entry of the
/// beneficiary with the whole total; with a royalty rate of zero the
/// beneficiary receives the whole total and every royalty account nothing.
pub proof fn lemma_beneficiary_only(total: nat, beneficiary: Seq<char>, m: Seq<(Seq<char>, nat)>, rate: nat)
    requires
        accounts_unique(m),
    ensures
        m.len() == 0 ==> payout_of(total, beneficiary, m, rate) == seq![(beneficiary, total)],
        rate == 0 ==> forall|i: int|
            0 <= i < payout_of(total, beneficiary, m, rate).len() ==> (#[trigger] payout_of(
                total,
                beneficiary,
                m,
                rate,
            )[i]).1 == if payout_of(total, beneficiary, m, rate)[i].0 == beneficiary {
                total
            } else {
                0
            },
{
    let p = payout_of(total, beneficiary, m, rate);
    if m.len() == 0 {
        assert(p =~= seq![(beneficiary, total)]);
    }
    if rate == 0 {
        assert(total * 0 == 0);
        assert(pool_of(total, 0) == 0);
        assert forall|q: nat| percent_of(0, q) == 0 by {
            assert(0 * q == 0);
        }
        lemma_others_zero(m, beneficiary);
    }
}

proof fn lemma_others_zero(m: Seq<(Seq<char>, nat)>, beneficiary: Seq<char>)
    ensures
        others_share(m, beneficiary, 0) == 0,
    decreases m.len(),
{
    if m.len() > 0 {
        lemma_others_zero(m.drop_last(), beneficiary);
        assert(0 * m.last().1 == 0);
    }
}

impl Payout {
    /// Splits `total` between `beneficiary_id` and the royalty accounts:
    /// `royalty_rate` of the total forms the pool, each account gets its
    /// share of the pool rounded down, and the beneficiary gets the rest of
    /// the total, its own share and any rounding remainder included.
    pub fn calculate_payout(
        total: u128,
        beneficiary_id: &String,
        royalties: &RoyaltyMap,
        royalty_rate: Percentage,
    ) -> (r: Payout)
        requires
            royalty_rate <= PERCENTAGE_BASIS,
            amount_sum(shares_view(royalties@)) <= PERCENTAGE_BASIS,
            accounts_unique(shares_view(royalties@)),
            payout_fits(total as nat, shares_view(royalties@), royalty_rate as nat),
        ensures
            r@ == payout_of(total as nat, beneficiary_id@, shares_view(royalties@), royalty_rate as nat),
            amount_sum(r@) == total,
    {
        let ghost m = shares_view(royalties@);
        let ghost ben = beneficiary_id@;
        let amount_for_royalty = apply_percent(total, &royalty_rate);
        let ghost pool = amount_for_royalty as nat;
        proof {
            lemma_others_within_pool(total as nat, ben, m, royalty_rate as nat);
        }
        // what the other accounts receive
        let mut others: u128 = 0;
        let mut i: usize = 0;
        while i < royalties.len()
            invariant
                m == shares_view(royalties@),
                ben == beneficiary_id@,
                pool == pool_of(total as nat, royalty_rate as nat),
                amount_for_royalty == pool,
                payout_fits(total as nat, m, royalty_rate as nat),
                others_share(m, ben, pool) <= pool,
                0 <= i <= royalties.len(),
                others == others_share(m.subrange(0, i as int), ben, pool),
            decreases royalties.len() - i,
        {
            let entry = &royalties[i];
            assert(pool * m[i as int].1 <= u128::MAX);
            let amount = apply_percent(amount_for_royalty, &entry.1);
            proof {
                assert(m.subrange(0, i + 1).drop_last() =~= m.subrange(0, i as int));
                lemma_others_prefix(m, ben, pool, i + 1);
            }
            if entry.0 != *beneficiary_id {
                others = others + amount;
            }
            i = i + 1;
        }
        proof {
            assert(m.subrange(0, i as int) =~= m);
        }
        let amount_for_beneficiary = total - others;
        let ghost b = beneficiary_amount(total as nat, ben, m, royalty_rate as nat);
        let ghost lines = lines_with(m, ben, pool, b);
        let mut payouts: Vec<(String, u128)> = Vec::new();
        let mut found = false;
        let mut i: usize = 0;
        while i < royalties.len()
            invariant
                m == shares_view(royalties@),
                ben == beneficiary_id@,
                pool == pool_of(total as nat, royalty_rate as nat),
                amount_for_royalty == pool,
                payout_fits(total as nat, m, royalty_rate as nat),
                amount_for_beneficiary == b,
                lines == lines_with(m, ben, pool, b),
                0 <= i <= royalties.len(),
                entries_view(payouts@) == lines.subrange(0, i as int),
                found <==> has_account(m.subrange(0, i as int), ben),
            decreases royalties.len() - i,
        {
            let entry = &royalties[i];
            assert(pool * m[i as int].1 <= u128::MAX);
            let is_beneficiary = entry.0 == *beneficiary_id;
            let ghost prev = payouts@;
            assert(lines.len() == m.len());
            assert(entries_view(prev).len() == prev.len());
            assert(prev.len() == i);
            let amount = if is_beneficiary {
                amount_for_beneficiary
            } else {
                apply_percent(amount_for_royalty, &entry.1)
            };
            payouts.push((entry.0.clone(), amount));
            if is_beneficiary {
                found = true;
            }
            proof {
                assert(payouts@.len() == i + 1);
                let pv = entries_view(payouts@);
                let prev_v = entries_view(prev);
                assert(prev_v =~= lines.subrange(0, i as int));
                assert forall|j: int| 0 <= j < i + 1 implies pv[j] == lines[j] by {
                    if j < i {
                        assert(payouts@[j] == prev[j]);
                        assert(prev_v[j] == lines[j]);
                    } else {
                        assert(m[j].0 == royalties@[j].0@);
                        assert(m[j].1 == royalties@[j].1 as nat);
                    }
                }
                assert(pv =~= lines.subrange(0, i + 1));
                let pre = m.subrange(0, i as int);
                let post = m.subrange(0, i + 1);
                if has_account(post, ben) {
                    let j = choose|j: int| 0 <= j < post.len() && post[j].0 == ben;
                    if j < i {
                        assert(pre[j].0 == ben);
                    }
                }
                if has_account(pre, ben) {
                    let j = choose|j: int| 0 <= j < pre.len() && pre[j].0 == ben;
                    assert(post[j].0 == ben);
                }
                if is_beneficiary {
                    assert(post[i as int].0 == ben);
                }
            }
            i = i + 1;
        }
        proof {
            assert(m.subrange(0, i as int) =~= m);
            assert(lines.subrange(0, i as int) =~= lines);
        }
        if !found {
            payouts.push((beneficiary_id.clone(), amount_for_beneficiary));
            proof {
                assert(entries_view(payouts@) =~= payout_of(total as nat, ben, m, royalty_rate as nat));
            }
        }
        proof {
            lemma_payout_conserves_total(total as nat, ben, m, royalty_rate as nat);
        }
        Payout { payout: payouts }
    }
}

/// The payout of a sale for the owner of a token: the whole total to the
/// owner where the token has no royalty, and a `PayoutTooLarge` error where
/// the payout has more entries than `max_len_payout` allows.
pub fn nft_payout(
    total: u128,
    owner_id: &String,
    royalty: &Option<Royalty>,
    max_len_payout: Option<u32>,
) -> (r: Result<Payout, ContractError>)
    requires
        royalty matches Some(x) ==> x.wf() && payout_fits(total as nat, x.shares(), x.rate()),
    ensures
        ({
            let expected = match royalty {
                Some(x) => payout_of(total as nat, owner_id@, x.shares(), x.rate()),
                None => seq![(owner_id@, total as nat)],
            };
            if max_len_payout matches Some(k) && expected.len() > k {
                r == Err::<Payout, ContractError>(ContractError::PayoutTooLarge)
            } else {
                r matches Ok(p) && p@ == expected && amount_sum(p@) == total
            }
        }),
{
    let payouts = match royalty {
        Some(x) => Payout::calculate_payout(total, owner_id, &x.royalties, x.royalty_rate),
        None => {
            let mut v: Vec<(String, u128)> = Vec::new();
            v.push((owner_id.clone(), total));
            let p = Payout { payout: v };
            assert(p@ =~= seq![(owner_id@, total as nat)]);
            assert(amount_sum(p@) == total) by {
                assert(p@.drop_last() =~= Seq::<(Seq<char>, nat)>::empty());
                reveal_with_fuel(amount_sum, 2);
            }
            p
        },
    };
    if let Some(max_len) = max_len_payout {
        if payouts.payout.len() > max_len as usize {
            return Err(ContractError::PayoutTooLarge);
        }
    }
    Ok(payouts)
}

} // verus!
