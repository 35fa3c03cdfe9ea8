use vstd::prelude::*;
use crate::model_checker::{digest, hash, Branch, ModelState, Predicate, Successors, Transition};

verus! {

/// Account numbers of the two parties.
pub const ALICE: usize = 0;

pub const BOB: usize = 1;

/// Where a transfer request stands in the two-phase protocol.
#[derive(Debug, Clone, Copy, PartialEq, Eq, Hash)]
pub enum Phase {
    StartTransfer,
    CompleteTransfer,
    Done,
}

/// Balances by account number; the phase of request `r` (counted from 1)
/// at position `r - 1` of `pc`.
#[derive(Debug, Clone)]
pub struct State {
    pub balances: Vec<i64>,
    pub pc: Vec<Phase>,
}

impl View for State {
    type V = (Seq<i64>, Seq<Phase>);

    open spec fn view(&self) -> (Seq<i64>, Seq<Phase>) {
        (self.balances@, self.pc@)
    }
}

pub open spec fn phase_word(p: Phase) -> u64 {
    match p {
        Phase::StartTransfer => 0,
        Phase::CompleteTransfer => 1,
        Phase::Done => 2,
    }
}

/// The words a state's fingerprint is folded from: the balances in
/// account order, then the phases in request order.
pub open spec fn words_of(v: (Seq<i64>, Seq<Phase>)) -> Seq<u64> {
    v.0.map_values(|b: i64| b as u64) + v.1.map_values(|p: Phase| phase_word(p))
}

fn phase_code(p: Phase) -> (r: u64)
    ensures
        r == phase_word(p),
{
    match p {
        Phase::StartTransfer => 0,
        Phase::CompleteTransfer => 1,
        Phase::Done => 2,
    }
}

fn same_phase(p: Phase, q: Phase) -> (r: bool)
    ensures
        r == (p == q),
{
    match p {
        Phase::StartTransfer => match q {
            Phase::StartTransfer => true,
            _ => false,
        },
        Phase::CompleteTransfer => match q {
            Phase::CompleteTransfer => true,
            _ => false,
        },
        Phase::Done => match q {
            Phase::Done => true,
            _ => false,
        },
    }
}

impl ModelState for State {
    open spec fn fingerprint_of(v: (Seq<i64>, Seq<Phase>)) -> u64 {
        digest(words_of(v))
    }

    fn fingerprint(&self) -> (r: u64) {
        let mut words: Vec<u64> = Vec::new();
        let mut i: usize = 0;
        while i < self.balances.len()
            invariant
                0 <= i <= self.balances@.len(),
                words@ == self.balances@.subrange(0, i as int).map_values(|b: i64| b as u64),
            decreases self.balances@.len() - i,
        {
            words.push(self.balances[i] as u64);
            i = i + 1;
            assert(words@ =~= self.balances@.subrange(0, i as int).map_values(|b: i64| b as u64));
        }
        assert(self.balances@.subrange(0, i as int) =~= self.balances@);
        let ghost prefix = words@;
        let mut j: usize = 0;
        while j < self.pc.len()
            invariant
                0 <= j <= self.pc@.len(),
                prefix == self.balances@.map_values(|b: i64| b as u64),
                words@ == prefix + self.pc@.subrange(0, j as int).map_values(|p: Phase| phase_word(p)),
            decreases self.pc@.len() - j,
        {
            words.push(phase_code(self.pc[j]));
            j = j + 1;
            assert(words@ =~= prefix + self.pc@.subrange(0, j as int).map_values(|p: Phase| phase_word(p)));
        }
        assert(self.pc@.subrange(0, j as int) =~= self.pc@);
        assert(words@ =~= words_of(self@));
        hash(&words)
    }

    fn same(&self, other: &State) -> (r: bool) {
        if self.balances.len() != other.balances.len() || self.pc.len() != other.pc.len() {
            return false;
        }
        let mut i: usize = 0;
        while i < self.balances.len()
            invariant
                0 <= i <= self.balances@.len(),
                self.balances@.len() == other.balances@.len(),
                self.pc@.len() == other.pc@.len(),
                forall|k: int| 0 <= k < i ==> self.balances@[k] == other.balances@[k],
            decreases self.balances@.len() - i,
        {
            if self.balances[i] != other.balances[i] {
                return false;
            }
            i = i + 1;
        }
        let mut j: usize = 0;
        while j < self.pc.len()
            invariant
                0 <= j <= self.pc@.len(),
                self.balances@.len() == other.balances@.len(),
                self.pc@.len() == other.pc@.len(),
                forall|k: int| 0 <= k < self.balances@.len() ==> self.balances@[k] == other.balances@[k],
                forall|k: int| 0 <= k < j ==> self.pc@[k] == other.pc@[k],
            decreases self.pc@.len() - j,
        {
            if !same_phase(self.pc[j], other.pc[j]) {
                return false;
            }
            j = j + 1;
        }
        assert(self.balances@ =~= other.balances@);
        assert(self.pc@ =~= other.pc@);
        true
    }

    fn duplicate(&self) -> (r: State) {
        let mut balances: Vec<i64> = Vec::new();
        let mut i: usize = 0;
        while i < self.balances.len()
            invariant
                0 <= i <= self.balances@.len(),
                balances@ == self.balances@.subrange(0, i as int),
            decreases self.balances@.len() - i,
        {
            balances.push(self.balances[i]);
            i = i + 1;
            assert(balances@ =~= self.balances@.subrange(0, i as int));
        }
        let mut pc: Vec<Phase> = Vec::new();
        let mut j: usize = 0;
        while j < self.pc.len()
            invariant
                0 <= j <= self.pc@.len(),
                pc@ == self.pc@.subrange(0, j as int),
            decreases self.pc@.len() - j,
        {
            pc.push(self.pc[j]);
            j = j + 1;
            assert(pc@ =~= self.pc@.subrange(0, j as int));
        }
        assert(balances@ =~= self.balances@);
        assert(pc@ =~= self.pc@);
        State { balances, pc }
    }
}

pub open spec fn fits_i64(x: int) -> bool {
    i64::MIN <= x <= i64::MAX
}

/// Adds `amount` to the balance of `account`.
pub open spec fn deposit_spec(v: (Seq<i64>, Seq<Phase>), account: int, amount: int) -> (
    Seq<i64>,
    Seq<Phase>,
) {
    (v.0.update(account, (v.0[account] + amount) as i64), v.1)
}

/// `account` exists and its balance plus `amount` is an `i64`.
pub open spec fn can_add(v: (Seq<i64>, Seq<Phase>), account: int, amount: int) -> bool {
    0 <= account < v.0.len() && fits_i64(v.0[account] + amount)
}

/// Moves `amount` from `from` to `to` in one step, with no check of the
/// balance.
pub open spec fn transfer_spec(v: (Seq<i64>, Seq<Phase>), from: int, to: int, amount: int) -> (
    Seq<i64>,
    Seq<Phase>,
) {
    deposit_spec(deposit_spec(v, from, -amount), to, amount)
}

/// The accounts exist and neither step of a transfer leaves `i64`.
pub open spec fn can_transfer(v: (Seq<i64>, Seq<Phase>), from: int, to: int, amount: int) -> bool {
    can_add(v, from, -amount) && can_add(deposit_spec(v, from, -amount), to, amount)
}

/// First phase of request `r`: if it has not started and `from` can cover
/// `amount`, the amount is taken from `from` and the request moves on.
pub open spec fn start_spec(v: (Seq<i64>, Seq<Phase>), r: int, from: int, amount: int) -> (
    Seq<i64>,
    Seq<Phase>,
) {
    if v.1[r - 1] == Phase::StartTransfer && v.0[from] - amount >= 0 {
        (v.0.update(from, (v.0[from] - amount) as i64), v.1.update(r - 1, Phase::CompleteTransfer))
    } else {
        v
    }
}

/// Second phase of request `r`: the amount taken in the first phase is
/// credited to `to` and the request is done.
pub open spec fn complete_spec(v: (Seq<i64>, Seq<Phase>), r: int, to: int, amount: int) -> (
    Seq<i64>,
    Seq<Phase>,
) {
    if v.1[r - 1] == Phase::CompleteTransfer {
        (v.0.update(to, (v.0[to] + amount) as i64), v.1.update(r - 1, Phase::Done))
    } else {
        v
    }
}

/// Request `r` exists.
pub open spec fn has_request(v: (Seq<i64>, Seq<Phase>), r: int) -> bool {
    1 <= r <= v.1.len()
}

fn fits_sum(b: i64, amount: i64) -> (r: bool)
    ensures
        r == fits_i64(b + amount),
{
    (amount >= 0 && b <= i64::MAX - amount) || (amount < 0 && b >= i64::MIN - amount)
}

fn fits_difference(b: i64, amount: i64) -> (r: bool)
    ensures
        r == fits_i64(b - amount),
{
    (amount >= 0 && b >= i64::MIN + amount) || (amount < 0 && b <= i64::MAX + amount)
}

pub fn deposit(s: &mut State, account: usize, amount: i64)
    requires
        can_add(old(s)@, account as int, amount as int),
    ensures
        final(s)@ == deposit_spec(old(s)@, account as int, amount as int),
{
    let b = s.balances[account];
    s.balances[account] = b + amount;
    assert(s@ =~= deposit_spec(old(s)@, account as int, amount as int));
}

/// Takes `amount` from the balance of `account`.
pub fn withdraw(s: &mut State, account: usize, amount: i64)
    requires
        can_add(old(s)@, account as int, -(amount as int)),
    ensures
        final(s)@ == deposit_spec(old(s)@, account as int, -(amount as int)),
{
    let b = s.balances[account];
    s.balances[account] = b - amount;
    assert(s@ =~= deposit_spec(old(s)@, account as int, -(amount as int)));
}

pub fn transfer(s: &mut State, from: usize, to: usize, amount: i64)
    requires
        can_transfer(old(s)@, from as int, to as int, amount as int),
    ensures
        final(s)@ == transfer_spec(old(s)@, from as int, to as int, amount as int),
{
    withdraw(s, from, amount);
    deposit(s, to, amount);
}

pub fn start_transfer(s: &mut State, r: usize, from: usize, amount: i64)
    requires
        has_request(old(s)@, r as int),
        can_add(old(s)@, from as int, -(amount as int)),
    ensures
        final(s)@ == start_spec(old(s)@, r as int, from as int, amount as int),
{
    let b = s.balances[from];
    if same_phase(s.pc[r - 1], Phase::StartTransfer) && b - amount >= 0 {
        s.balances[from] = b - amount;
        s.pc[r - 1] = Phase::CompleteTransfer;
    }
    assert(s@ =~= start_spec(old(s)@, r as int, from as int, amount as int));
}

pub fn complete_transfer(s: &mut State, r: usize, to: usize, amount: i64)
    requires
        has_request(old(s)@, r as int),
        can_add(old(s)@, to as int, amount as int),
    ensures
        final(s)@ == complete_spec(old(s)@, r as int, to as int, amount as int),
{
    if same_phase(s.pc[r - 1], Phase::CompleteTransfer) {
        let b = s.balances[to];
        s.balances[to] = b + amount;
        s.pc[r - 1] = Phase::Done;
    }
    assert(s@ =~= complete_spec(old(s)@, r as int, to as int, amount as int));
}

/// No balance is negative.
pub fn consistency(s: &State) -> (r: bool)
    ensures
        r == (forall|i: int| 0 <= i < s.balances@.len() ==> s.balances@[i] >= 0),
{
    let mut i: usize = 0;
    while i < s.balances.len()
        invariant
            0 <= i <= s.balances@.len(),
            forall|k: int| 0 <= k < i ==> s.balances@[k] >= 0,
        decreases s.balances@.len() - i,
    {
        if s.balances[i] < 0 {
            return false;
        }
        i = i + 1;
    }
    true
}

/// Canonical fingerprinting: deposits into two different accounts, made in
/// either order, give the same state and so the same fingerprint.
pub proof fn lemma_deposit_order_irrelevant(v: (Seq<i64>, Seq<Phase>), x: int, y: int, m: int, n: int)
    requires
        x != y,
        0 <= x < v.0.len(),
        0 <= y < v.0.len(),
    ensures
        deposit_spec(deposit_spec(v, x, m), y, n) == deposit_spec(deposit_spec(v, y, n), x, m),
        State::fingerprint_of(deposit_spec(deposit_spec(v, x, m), y, n)) == State::fingerprint_of(
            deposit_spec(deposit_spec(v, y, n), x, m),
        ),
{
    let a = deposit_spec(deposit_spec(v, x, m), y, n);
    let b = deposit_spec(deposit_spec(v, y, n), x, m);
    assert(a.0 =~= b.0);
    assert(a.1 =~= b.1);
}

/// The actions of the money-transfer specifications. `Deposit` branches
/// over every account; the two phases branch over every request.
#[derive(Debug, Clone, Copy, PartialEq, Eq)]
pub enum MoneyAction {
    Deposit { amount: i64 },
    StartTransfer { from: usize, amount: i64 },
    CompleteTransfer { to: usize, amount: i64 },
    Transfer { from: usize, to: usize, amount: i64 },
}

/// What action `a` does with the candidate `x` (an account for `Deposit`,
/// a request for the two phases, unused by `Transfer`).
pub open spec fn money_outcome(a: MoneyAction, v: (Seq<i64>, Seq<Phase>), x: int) -> (
    Seq<i64>,
    Seq<Phase>,
) {
    match a {
        MoneyAction::Deposit { amount } => deposit_spec(v, x, amount as int),
        MoneyAction::StartTransfer { from, amount } => start_spec(v, x, from as int, amount as int),
        MoneyAction::CompleteTransfer { to, amount } => complete_spec(v, x, to as int, amount as int),
        MoneyAction::Transfer { from, to, amount } => transfer_spec(
            v,
            from as int,
            to as int,
            amount as int,
        ),
    }
}

/// Where action `a` is defined with candidate `x`.
pub open spec fn money_admits(a: MoneyAction, v: (Seq<i64>, Seq<Phase>), x: int) -> bool {
    match a {
        MoneyAction::Deposit { amount } => can_add(v, x, amount as int),
        MoneyAction::StartTransfer { from, amount } => has_request(v, x) && can_add(
            v,
            from as int,
            -(amount as int),
        ),
        MoneyAction::CompleteTransfer { to, amount } => has_request(v, x) && can_add(
            v,
            to as int,
            amount as int,
        ),
        MoneyAction::Transfer { from, to, amount } => can_transfer(
            v,
            from as int,
            to as int,
            amount as int,
        ),
    }
}

impl Branch<State, usize> for MoneyAction {
    open spec fn admits(&self, s: (Seq<i64>, Seq<Phase>), v: usize) -> bool {
        money_admits(*self, s, v as int)
    }

    open spec fn outcome(&self, s: (Seq<i64>, Seq<Phase>), v: usize) -> (Seq<i64>, Seq<Phase>) {
        money_outcome(*self, s, v as int)
    }

    fn apply(&self, s: &mut State, v: usize) {
        match *self {
            MoneyAction::Deposit { amount } => deposit(s, v, amount),
            MoneyAction::StartTransfer { from, amount } => start_transfer(s, v, from, amount),
            MoneyAction::CompleteTransfer { to, amount } => complete_transfer(s, v, to, amount),
            MoneyAction::Transfer { from, to, amount } => transfer(s, from, to, amount),
        }
    }
}

/// The candidates `first, first + 1, ...`, `n` of them.
fn candidates(first: usize, n: usize) -> (r: Vec<usize>)
    requires
        first + n <= usize::MAX + 1,
    ensures
        r@ == Seq::new(n as nat, |i: int| (first + i) as usize),
{
    let mut r: Vec<usize> = Vec::new();
    let mut i: usize = 0;
    while i < n
        invariant
            0 <= i <= n,
            first + n <= usize::MAX + 1,
            r@ == Seq::new(i as nat, |k: int| (first + k) as usize),
        decreases n - i,
    {
        r.push(first + i);
        i = i + 1;
        assert(r@ =~= Seq::new(i as nat, |k: int| (first + k) as usize));
    }
    r
}

/// Every balance can take `amount` more.
fn all_can_add(s: &State, amount: i64) -> (r: bool)
    ensures
        r == (forall|i: int| 0 <= i < s.balances@.len() ==> #[trigger] can_add(s@, i, amount as int)),
{
    let mut i: usize = 0;
    while i < s.balances.len()
        invariant
            0 <= i <= s.balances@.len(),
            forall|k: int| 0 <= k < i ==> #[trigger] can_add(s@, k, amount as int),
        decreases s.balances@.len() - i,
    {
        if !fits_sum(s.balances[i], amount) {
            assert(!can_add(s@, i as int, amount as int));
            return false;
        }
        i = i + 1;
    }
    true
}

impl Transition<State> for MoneyAction {
    /// `Deposit` needs every account to take the amount; the phases need
    /// their account to exist and stay in range; `Transfer` needs both.
    open spec fn enabled(&self, s: (Seq<i64>, Seq<Phase>)) -> bool {
        match *self {
            MoneyAction::Deposit { amount } => forall|i: int|
                0 <= i < s.0.len() ==> #[trigger] can_add(s, i, amount as int),
            MoneyAction::StartTransfer { from, amount } => can_add(s, from as int, -(amount as int)),
            MoneyAction::CompleteTransfer { to, amount } => can_add(s, to as int, amount as int),
            MoneyAction::Transfer { from, to, amount } => can_transfer(
                s,
                from as int,
                to as int,
                amount as int,
            ),
        }
    }

    open spec fn successors(&self, s: (Seq<i64>, Seq<Phase>)) -> Seq<(Seq<i64>, Seq<Phase>)> {
        match *self {
            MoneyAction::Deposit { .. } => Seq::new(s.0.len(), |i: int| money_outcome(*self, s, i)).push(
                s,
            ),
            MoneyAction::Transfer { .. } => seq![money_outcome(*self, s, 0)],
            _ => Seq::new(s.1.len(), |i: int| money_outcome(*self, s, i + 1)).push(s),
        }
    }

    fn apply(&self, ctx: &mut Successors<State>, s: &mut State) -> (ok: bool) {
        match *self {
            MoneyAction::Transfer { from, to, amount } => {
                if from >= s.balances.len() || to >= s.balances.len() || !fits_difference(
                    s.balances[from],
                    amount,
                ) {
                    return false;
                }
                let after = if from == to {
                    s.balances[from] - amount
                } else {
                    s.balances[to]
                };
                if !fits_sum(after, amount) {
                    return false;
                }
                transfer(s, from, to, amount);
                assert(ctx.found_views().push(s@) =~= seq![money_outcome(*self, old(s)@, 0)]);
                true
            },
            MoneyAction::Deposit { amount } => {
                if !all_can_add(s, amount) {
                    return false;
                }
                let xs = candidates(0, s.balances.len());
                ctx.there_exists(xs, self);
                assert(ctx.found_views().push(s@) =~= Seq::new(
                    old(s)@.0.len(),
                    |i: int| money_outcome(*self, old(s)@, i),
                ).push(old(s)@));
                true
            },
            MoneyAction::StartTransfer { from, amount } => {
                if from >= s.balances.len() || !fits_difference(s.balances[from], amount) {
                    return false;
                }
                let xs = candidates(1, s.pc.len());
                ctx.there_exists(xs, self);
                assert(ctx.found_views().push(s@) =~= Seq::new(
                    old(s)@.1.len(),
                    |i: int| money_outcome(*self, old(s)@, i + 1),
                ).push(old(s)@));
                true
            },
            MoneyAction::CompleteTransfer { to, amount } => {
                if to >= s.balances.len() || !fits_sum(s.balances[to], amount) {
                    return false;
                }
                let xs = candidates(1, s.pc.len());
                ctx.there_exists(xs, self);
                assert(ctx.found_views().push(s@) =~= Seq::new(
                    old(s)@.1.len(),
                    |i: int| money_outcome(*self, old(s)@, i + 1),
                ).push(old(s)@));
                true
            },
        }
    }
}

/// The invariants of the money-transfer specifications: no balance is
/// negative, or Alice and Bob do not hold exactly the given balances.
#[derive(Debug, Clone, Copy, PartialEq, Eq)]
pub enum MoneyInvariant {
    Consistency,
    NotBoth { alice: i64, bob: i64 },
}

impl Predicate<State> for MoneyInvariant {
    open spec fn holds(&self, s: (Seq<i64>, Seq<Phase>)) -> bool {
        match *self {
            MoneyInvariant::Consistency => forall|i: int| 0 <= i < s.0.len() ==> s.0[i] >= 0,
            MoneyInvariant::NotBoth { alice, bob } => !(s.0.len() > BOB && s.0[ALICE as int] == alice
                && s.0[BOB as int] == bob),
        }
    }

    fn check(&self, s: &State) -> (r: bool) {
        match *self {
            MoneyInvariant::Consistency => {
                let r = consistency(s);
                assert(s@.0 == s.balances@);
                r
            },
            MoneyInvariant::NotBoth { alice, bob } => !(s.balances.len() > BOB && s.balances[ALICE]
                == alice && s.balances[BOB] == bob),
        }
    }
}

} // verus!
