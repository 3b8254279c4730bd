use vstd::prelude::*;

verus! {

/// Why a ledger operation was refused. A refused operation leaves the ledger
/// unchanged.
#[derive(Clone, Copy, Debug, PartialEq, Eq, Structural)]
pub enum TokenError {
    /// A mint or account identity that the ledger does not hold.
    NotFound,
    /// An identity that the ledger already holds.
    AlreadyExists,
    /// The authority does not govern the mint or the debited account.
    Unauthorized,
    /// The accounts involved are not bound to the expected mint.
    AccountMismatch,
    /// The debited account holds less than the amount.
    InsufficientFunds,
    /// The new total supply would not fit in 64 bits.
    Overflow,
}

/// A token type: its identity, the authority allowed to issue it, and the
/// number of units issued so far.
#[derive(Clone, Copy, Debug, PartialEq, Eq, Structural)]
pub struct Mint {
    pub id: u64,
    pub authority: u64,
    pub supply: u64,
}

/// A balance holder bound to one mint, debited only by its authority.
#[derive(Clone, Copy, Debug, PartialEq, Eq, Structural)]
pub struct TokenAccount {
    pub id: u64,
    pub mint: u64,
    pub authority: u64,
    pub balance: u64,
}

/// Position of the last mint with identity `id` in `s`, or -1.
pub open spec fn mint_pos(s: Seq<Mint>, id: u64) -> int
    decreases s.len(),
{
    if s.len() == 0 {
        -1
    } else if s.last().id == id {
        s.len() - 1
    } else {
        mint_pos(s.drop_last(), id)
    }
}

/// Position of the last account with identity `id` in `s`, or -1.
pub open spec fn account_pos(s: Seq<TokenAccount>, id: u64) -> int
    decreases s.len(),
{
    if s.len() == 0 {
        -1
    } else if s.last().id == id {
        s.len() - 1
    } else {
        account_pos(s.drop_last(), id)
    }
}

pub open spec fn mint_ids_unique(s: Seq<Mint>) -> bool {
    forall|i: int, j: int| 0 <= i < j < s.len() ==> s[i].id != s[j].id
}

pub open spec fn account_ids_unique(s: Seq<TokenAccount>) -> bool {
    forall|i: int, j: int| 0 <= i < j < s.len() ==> s[i].id != s[j].id
}

proof fn lemma_mint_pos(s: Seq<Mint>, id: u64)
    ensures
        -1 <= mint_pos(s, id) < s.len(),
        mint_pos(s, id) >= 0 ==> s[mint_pos(s, id)].id == id,
        mint_pos(s, id) == -1 <==> forall|i: int| 0 <= i < s.len() ==> s[i].id != id,
        mint_ids_unique(s) ==> forall|i: int| 0 <= i < s.len() && s[i].id == id ==> mint_pos(s, id) == i,
    decreases s.len(),
{
    if s.len() > 0 {
        lemma_mint_pos(s.drop_last(), id);
        assert forall|i: int| 0 <= i < s.len() - 1 implies s.drop_last()[i] == s[i] by {}
    }
}

proof fn lemma_account_pos(s: Seq<TokenAccount>, id: u64)
    ensures
        -1 <= account_pos(s, id) < s.len(),
        account_pos(s, id) >= 0 ==> s[account_pos(s, id)].id == id,
        account_pos(s, id) == -1 <==> forall|i: int| 0 <= i < s.len() ==> s[i].id != id,
        account_ids_unique(s) ==> forall|i: int| 0 <= i < s.len() && s[i].id == id ==> account_pos(s, id) == i,
    decreases s.len(),
{
    if s.len() > 0 {
        lemma_account_pos(s.drop_last(), id);
        assert forall|i: int| 0 <= i < s.len() - 1 implies s.drop_last()[i] == s[i] by {}
    }
}


/// Units of `mint` that account `a` holds: its balance if it is bound to
/// `mint`, else nothing.
pub open spec fn held(a: TokenAccount, mint: u64) -> nat {
    if a.mint == mint {
        a.balance as nat
    } else {
        0
    }
}

/// Sum of the balances of the accounts of `s` that are bound to `mint`.
pub open spec fn total_held(s: Seq<TokenAccount>, mint: u64) -> nat
    decreases s.len(),
{
    if s.len() == 0 {
        0
    } else {
        total_held(s.drop_last(), mint) + held(s.last(), mint)
    }
}

proof fn lemma_total_held_push(s: Seq<TokenAccount>, a: TokenAccount, mint: u64)
    ensures
        total_held(s.push(a), mint) == total_held(s, mint) + held(a, mint),
{
    assert(s.push(a).drop_last() =~= s);
}

proof fn lemma_total_held_update(s: Seq<TokenAccount>, i: int, a: TokenAccount, mint: u64)
    requires
        0 <= i < s.len(),
    ensures
        total_held(s.update(i, a), mint) + held(s[i], mint) == total_held(s, mint) + held(a, mint),
    decreases s.len(),
{
    if i < s.len() - 1 {
        assert(s.update(i, a).drop_last() =~= s.drop_last().update(i, a));
        lemma_total_held_update(s.drop_last(), i, a, mint);
    } else {
        assert(s.update(i, a).drop_last() =~= s.drop_last());
    }
}

proof fn lemma_total_held_pair(s: Seq<TokenAccount>, i: int, j: int, mint: u64)
    requires
        0 <= i < s.len(),
        0 <= j < s.len(),
        i != j,
    ensures
        held(s[i], mint) + held(s[j], mint) <= total_held(s, mint),
    decreases s.len(),
{
    let t = s.drop_last();
    if i < s.len() - 1 && j < s.len() - 1 {
        lemma_total_held_pair(t, i, j, mint);
    } else if i < s.len() - 1 {
        lemma_total_held_one(t, i, mint);
    } else {
        lemma_total_held_one(t, j, mint);
    }
}

proof fn lemma_total_held_one(s: Seq<TokenAccount>, i: int, mint: u64)
    requires
        0 <= i < s.len(),
    ensures
        held(s[i], mint) <= total_held(s, mint),
    decreases s.len(),
{
    if i < s.len() - 1 {
        lemma_total_held_one(s.drop_last(), i, mint);
    }
}

proof fn lemma_total_held_zero(s: Seq<TokenAccount>, mint: u64)
    requires
        forall|i: int| 0 <= i < s.len() ==> held(#[trigger] s[i], mint) == 0,
    ensures
        total_held(s, mint) == 0,
    decreases s.len(),
{
    if s.len() > 0 {
        lemma_total_held_zero(s.drop_last(), mint);
    }
}

/// The mints of `s` by identity.
pub open spec fn mints_by_id(s: Seq<Mint>) -> Map<u64, Mint> {
    Map::new(|id: u64| mint_pos(s, id) >= 0, |id: u64| s[mint_pos(s, id)])
}

/// The accounts of `s` by identity.
pub open spec fn accounts_by_id(s: Seq<TokenAccount>) -> Map<u64, TokenAccount> {
    Map::new(|id: u64| account_pos(s, id) >= 0, |id: u64| s[account_pos(s, id)])
}

proof fn lemma_mint_pos_same_ids(s: Seq<Mint>, t: Seq<Mint>, id: u64)
    requires
        s.len() == t.len(),
        forall|k: int| 0 <= k < s.len() ==> s[k].id == t[k].id,
    ensures
        mint_pos(s, id) == mint_pos(t, id),
    decreases s.len(),
{
    if s.len() > 0 {
        lemma_mint_pos_same_ids(s.drop_last(), t.drop_last(), id);
    }
}

proof fn lemma_account_pos_same_ids(s: Seq<TokenAccount>, t: Seq<TokenAccount>, id: u64)
    requires
        s.len() == t.len(),
        forall|k: int| 0 <= k < s.len() ==> s[k].id == t[k].id,
    ensures
        account_pos(s, id) == account_pos(t, id),
    decreases s.len(),
{
    if s.len() > 0 {
        lemma_account_pos_same_ids(s.drop_last(), t.drop_last(), id);
    }
}

proof fn lemma_mints_update(s: Seq<Mint>, i: int, m: Mint)
    requires
        0 <= i < s.len(),
        s[i].id == m.id,
        mint_ids_unique(s),
    ensures
        mints_by_id(s.update(i, m)) == mints_by_id(s).insert(m.id, m),
        mint_ids_unique(s.update(i, m)),
{
    let t = s.update(i, m);
    assert forall|id: u64| mint_pos(t, id) == mint_pos(s, id) by {
        lemma_mint_pos_same_ids(t, s, id);
    }
    assert forall|id: u64| mints_by_id(s).contains_key(id) && id != m.id implies mints_by_id(t)[id] == mints_by_id(s)[id] by {
        lemma_mint_pos(s, id);
    }
    lemma_mint_pos(s, m.id);
    assert(mints_by_id(t) =~= mints_by_id(s).insert(m.id, m));
}

proof fn lemma_accounts_update(s: Seq<TokenAccount>, i: int, a: TokenAccount)
    requires
        0 <= i < s.len(),
        s[i].id == a.id,
        account_ids_unique(s),
    ensures
        accounts_by_id(s.update(i, a)) == accounts_by_id(s).insert(a.id, a),
        account_ids_unique(s.update(i, a)),
{
    let t = s.update(i, a);
    assert forall|id: u64| account_pos(t, id) == account_pos(s, id) by {
        lemma_account_pos_same_ids(t, s, id);
    }
    assert forall|id: u64| accounts_by_id(s).contains_key(id) && id != a.id implies accounts_by_id(t)[id] == accounts_by_id(s)[id] by {
        lemma_account_pos(s, id);
    }
    lemma_account_pos(s, a.id);
    assert(accounts_by_id(t) =~= accounts_by_id(s).insert(a.id, a));
}

proof fn lemma_mints_push(s: Seq<Mint>, m: Mint)
    requires
        mint_pos(s, m.id) == -1,
        mint_ids_unique(s),
    ensures
        mints_by_id(s.push(m)) == mints_by_id(s).insert(m.id, m),
        mint_ids_unique(s.push(m)),
{
    let t = s.push(m);
    assert(t.drop_last() =~= s);
    assert forall|id: u64| id != m.id implies mint_pos(t, id) == mint_pos(s, id) by {}
    assert forall|id: u64| mints_by_id(s).contains_key(id) && id != m.id implies mints_by_id(t)[id] == mints_by_id(s)[id] by {
        lemma_mint_pos(s, id);
    }
    lemma_mint_pos(s, m.id);
    assert(mints_by_id(t) =~= mints_by_id(s).insert(m.id, m));
}

proof fn lemma_accounts_push(s: Seq<TokenAccount>, a: TokenAccount)
    requires
        account_pos(s, a.id) == -1,
        account_ids_unique(s),
    ensures
        accounts_by_id(s.push(a)) == accounts_by_id(s).insert(a.id, a),
        account_ids_unique(s.push(a)),
{
    let t = s.push(a);
    assert(t.drop_last() =~= s);
    assert forall|id: u64| id != a.id implies account_pos(t, id) == account_pos(s, id) by {}
    assert forall|id: u64| accounts_by_id(s).contains_key(id) && id != a.id implies accounts_by_id(t)[id] == accounts_by_id(s)[id] by {
        lemma_account_pos(s, id);
    }
    lemma_account_pos(s, a.id);
    assert(accounts_by_id(t) =~= accounts_by_id(s).insert(a.id, a));
}



/// The outcome of minting `amount` units of `mint` into account `to` on the
/// word of `authority`.
pub open spec fn mint_to_outcome(v: LedgerView, mint: u64, to: u64, authority: u64, amount: u64) -> Result<
    (),
    TokenError,
> {
    if !v.mints.contains_key(mint) || !v.accounts.contains_key(to) {
        Err(TokenError::NotFound)
    } else if v.mints[mint].authority != authority {
        Err(TokenError::Unauthorized)
    } else if v.accounts[to].mint != mint {
        Err(TokenError::AccountMismatch)
    } else if v.mints[mint].supply + amount > u64::MAX {
        Err(TokenError::Overflow)
    } else {
        Ok(())
    }
}

/// The ledger after that mint: the supply of `mint` and the balance of `to`
/// grow by `amount` when it succeeds, and nothing changes when it fails.
pub open spec fn after_mint_to(v: LedgerView, mint: u64, to: u64, authority: u64, amount: u64) -> LedgerView {
    if mint_to_outcome(v, mint, to, authority, amount) is Ok {
        let m = v.mints[mint];
        let a = v.accounts[to];
        LedgerView {
            mints: v.mints.insert(
                mint,
                Mint { id: m.id, authority: m.authority, supply: (m.supply + amount) as u64 },
            ),
            accounts: v.accounts.insert(
                to,
                TokenAccount {
                    id: a.id,
                    mint: a.mint,
                    authority: a.authority,
                    balance: (a.balance + amount) as u64,
                },
            ),
        }
    } else {
        v
    }
}

/// The outcome of moving `amount` units from account `from` to account `to`
/// on the word of `authority`.
pub open spec fn transfer_outcome(v: LedgerView, from: u64, to: u64, authority: u64, amount: u64) -> Result<
    (),
    TokenError,
> {
    if !v.accounts.contains_key(from) || !v.accounts.contains_key(to) {
        Err(TokenError::NotFound)
    } else if v.accounts[from].authority != authority {
        Err(TokenError::Unauthorized)
    } else if v.accounts[from].balance < amount {
        Err(TokenError::InsufficientFunds)
    } else if v.accounts[from].mint != v.accounts[to].mint {
        Err(TokenError::AccountMismatch)
    } else {
        Ok(())
    }
}

/// The ledger after that transfer: when it succeeds between two distinct
/// accounts, `from` loses `amount` and `to` gains it; otherwise nothing
/// changes.
pub open spec fn after_transfer(v: LedgerView, from: u64, to: u64, authority: u64, amount: u64) -> LedgerView {
    if transfer_outcome(v, from, to, authority, amount) is Ok && from != to {
        let s = v.accounts[from];
        let d = v.accounts[to];
        LedgerView {
            mints: v.mints,
            accounts: v.accounts.insert(
                from,
                TokenAccount {
                    id: s.id,
                    mint: s.mint,
                    authority: s.authority,
                    balance: (s.balance - amount) as u64,
                },
            ).insert(
                to,
                TokenAccount {
                    id: d.id,
                    mint: d.mint,
                    authority: d.authority,
                    balance: (d.balance + amount) as u64,
                },
            ),
        }
    } else {
        v
    }
}

/// What a ledger holds: its mints and its accounts, each by identity.
pub struct LedgerView {
    pub mints: Map<u64, Mint>,
    pub accounts: Map<u64, TokenAccount>,
}

/// A set of mints and of token accounts bound to them.
pub struct Ledger {
    mints: Vec<Mint>,
    accounts: Vec<TokenAccount>,
}

impl View for Ledger {
    type V = LedgerView;

    closed spec fn view(&self) -> LedgerView {
        LedgerView { mints: mints_by_id(self.mints@), accounts: accounts_by_id(self.accounts@) }
    }
}

impl Ledger {
    /// Identities are unique, every account is bound to a mint of the ledger,
    /// and no mint's accounts hold more than its supply.
    pub closed spec fn wf(&self) -> bool {
        &&& mint_ids_unique(self.mints@)
        &&& account_ids_unique(self.accounts@)
        &&& forall|i: int|
            0 <= i < self.accounts@.len() ==> mint_pos(self.mints@, #[trigger] self.accounts@[i].mint)
                >= 0
        &&& forall|i: int|
            0 <= i < self.mints@.len() ==> total_held(self.accounts@, #[trigger] self.mints@[i].id)
                <= self.mints@[i].supply
    }

    /// An empty ledger.
    pub fn new() -> (l: Ledger)
        ensures
            l.wf(),
            l@.mints == Map::<u64, Mint>::empty(),
            l@.accounts == Map::<u64, TokenAccount>::empty(),
    {
        let l = Ledger { mints: Vec::new(), accounts: Vec::new() };
        assert(l@.mints =~= Map::<u64, Mint>::empty());
        assert(l@.accounts =~= Map::<u64, TokenAccount>::empty());
        l
    }

    fn find_mint(&self, id: u64) -> (r: Option<usize>)
        ensures
            match r {
                Some(i) => i < self.mints@.len() && self.mints@[i as int].id == id,
                None => mint_pos(self.mints@, id) == -1,
            },
    {
        let mut i: usize = 0;
        while i < self.mints.len()
            invariant
                i <= self.mints@.len(),
                forall|k: int| 0 <= k < i ==> self.mints@[k].id != id,
            decreases self.mints@.len() - i,
        {
            if self.mints[i].id == id {
                return Some(i);
            }
            i = i + 1;
        }
        proof {
            lemma_mint_pos(self.mints@, id);
        }
        None
    }

    fn find_account(&self, id: u64) -> (r: Option<usize>)
        ensures
            match r {
                Some(i) => i < self.accounts@.len() && self.accounts@[i as int].id == id,
                None => account_pos(self.accounts@, id) == -1,
            },
    {
        let mut i: usize = 0;
        while i < self.accounts.len()
            invariant
                i <= self.accounts@.len(),
                forall|k: int| 0 <= k < i ==> self.accounts@[k].id != id,
            decreases self.accounts@.len() - i,
        {
            if self.accounts[i].id == id {
                return Some(i);
            }
            i = i + 1;
        }
        proof {
            lemma_account_pos(self.accounts@, id);
        }
        None
    }

    /// Mints `amount` units of `mint` into the account `to`, on the word of
    /// `authority`, which must be the mint's authority.
    pub fn mint_to(&mut self, mint: u64, to: u64, authority: u64, amount: u64) -> (r: Result<
        (),
        TokenError,
    >)
        requires
            old(self).wf(),
        ensures
            final(self).wf(),
            r == mint_to_outcome(old(self)@, mint, to, authority, amount),
            final(self)@ == after_mint_to(old(self)@, mint, to, authority, amount),
    {
        let mi = match self.find_mint(mint) {
            Some(i) => i,
            None => {
                return Err(TokenError::NotFound);
            },
        };
        let ai = match self.find_account(to) {
            Some(i) => i,
            None => {
                return Err(TokenError::NotFound);
            },
        };
        let m = self.mints[mi];
        let a = self.accounts[ai];
        proof {
            lemma_mint_pos(self.mints@, mint);
            lemma_account_pos(self.accounts@, to);
        }
        if m.authority != authority {
            return Err(TokenError::Unauthorized);
        }
        if a.mint != mint {
            return Err(TokenError::AccountMismatch);
        }
        if amount > u64::MAX - m.supply {
            return Err(TokenError::Overflow);
        }
        proof {
            lemma_total_held_one(self.accounts@, ai as int, mint);
        }
        let ghost ms = self.mints@;
        let ghost accs = self.accounts@;
        let nm = Mint { id: m.id, authority: m.authority, supply: m.supply + amount };
        let na = TokenAccount {
            id: a.id,
            mint: a.mint,
            authority: a.authority,
            balance: a.balance + amount,
        };
        self.mints[mi] = nm;
        self.accounts[ai] = na;
        proof {
            assert(self.mints@ == ms.update(mi as int, nm));
            assert(self.accounts@ == accs.update(ai as int, na));
            lemma_mints_update(ms, mi as int, nm);
            lemma_accounts_update(accs, ai as int, na);
            assert forall|id: u64| mint_pos(self.mints@, id) == mint_pos(ms, id) by {
                lemma_mint_pos_same_ids(self.mints@, ms, id);
            }
            assert forall|k: int| 0 <= k < self.mints@.len() implies total_held(
                self.accounts@,
                #[trigger] self.mints@[k].id,
            ) <= self.mints@[k].supply by {
                lemma_total_held_update(accs, ai as int, na, self.mints@[k].id);
                if k != mi {
                    assert(ms[k] == self.mints@[k]);
                }
            }
            assert forall|k: int| 0 <= k < self.accounts@.len() implies mint_pos(
                self.mints@,
                #[trigger] self.accounts@[k].mint,
            ) >= 0 by {
                if k != ai {
                    assert(accs[k] == self.accounts@[k]);
                }
            }
        }
        Ok(())
    }

    /// Moves `amount` units from the account `from` to the account `to`, on
    /// the word of `authority`, which must be the authority of `from`. Both
    /// balances change together or neither does.
    pub fn transfer(&mut self, from: u64, to: u64, authority: u64, amount: u64) -> (r: Result<
        (),
        TokenError,
    >)
        requires
            old(self).wf(),
        ensures
            final(self).wf(),
            r == transfer_outcome(old(self)@, from, to, authority, amount),
            final(self)@ == after_transfer(old(self)@, from, to, authority, amount),
    {
        let si = match self.find_account(from) {
            Some(i) => i,
            None => {
                return Err(TokenError::NotFound);
            },
        };
        let di = match self.find_account(to) {
            Some(i) => i,
            None => {
                return Err(TokenError::NotFound);
            },
        };
        let src = self.accounts[si];
        let dst = self.accounts[di];
        proof {
            lemma_account_pos(self.accounts@, from);
            lemma_account_pos(self.accounts@, to);
        }
        if src.authority != authority {
            return Err(TokenError::Unauthorized);
        }
        if src.balance < amount {
            return Err(TokenError::InsufficientFunds);
        }
        if src.mint != dst.mint {
            return Err(TokenError::AccountMismatch);
        }
        if si == di {
            return Ok(());
        }
        let ghost accs = self.accounts@;
        let ghost mint = src.mint;
        proof {
            lemma_total_held_pair(accs, si as int, di as int, mint);
            let k = mint_pos(self.mints@, mint);
            lemma_mint_pos(self.mints@, mint);
            assert(total_held(accs, self.mints@[k].id) <= self.mints@[k].supply);
        }
        let ns = TokenAccount {
            id: src.id,
            mint: src.mint,
            authority: src.authority,
            balance: src.balance - amount,
        };
        let nd = TokenAccount {
            id: dst.id,
            mint: dst.mint,
            authority: dst.authority,
            balance: dst.balance + amount,
        };
        self.accounts[si] = ns;
        let ghost mid = self.accounts@;
        self.accounts[di] = nd;
        proof {
            assert(mid == accs.update(si as int, ns));
            assert(self.accounts@ == mid.update(di as int, nd));
            lemma_accounts_update(accs, si as int, ns);
            lemma_accounts_update(mid, di as int, nd);
            assert forall|k: int| 0 <= k < self.mints@.len() implies total_held(
                self.accounts@,
                #[trigger] self.mints@[k].id,
            ) <= self.mints@[k].supply by {
                lemma_total_held_update(accs, si as int, ns, self.mints@[k].id);
                lemma_total_held_update(mid, di as int, nd, self.mints@[k].id);
            }
            assert forall|k: int| 0 <= k < self.accounts@.len() implies mint_pos(
                self.mints@,
                #[trigger] self.accounts@[k].mint,
            ) >= 0 by {
                if k != si && k != di {
                    assert(accs[k] == self.accounts@[k]);
                }
            }
        }
        Ok(())
    }
    /// Adds a mint with identity `id`, governed by `authority`, with nothing
    /// issued yet.
    pub fn create_mint(&mut self, id: u64, authority: u64) -> (r: Result<(), TokenError>)
        requires
            old(self).wf(),
        ensures
            final(self).wf(),
            r == (if old(self)@.mints.contains_key(id) {
                Err(TokenError::AlreadyExists)
            } else {
                Ok(())
            }),
            final(self)@.accounts == old(self)@.accounts,
            final(self)@.mints == (if r is Ok {
                old(self)@.mints.insert(id, Mint { id, authority, supply: 0 })
            } else {
                old(self)@.mints
            }),
    {
        proof {
            lemma_mint_pos(self.mints@, id);
        }
        if self.find_mint(id).is_some() {
            return Err(TokenError::AlreadyExists);
        }
        let ghost ms = self.mints@;
        let m = Mint { id, authority, supply: 0 };
        self.mints.push(m);
        proof {
            lemma_mints_push(ms, m);
            assert(self.mints@.drop_last() =~= ms);
            assert forall|k: int| 0 <= k < self.accounts@.len() implies mint_pos(
                self.mints@,
                #[trigger] self.accounts@[k].mint,
            ) >= 0 by {
                lemma_mint_pos(ms, self.accounts@[k].mint);
            }
            assert forall|k: int| 0 <= k < self.mints@.len() implies total_held(
                self.accounts@,
                #[trigger] self.mints@[k].id,
            ) <= self.mints@[k].supply by {
                if k < ms.len() {
                    assert(ms[k] == self.mints@[k]);
                } else {
                    assert forall|i: int| 0 <= i < self.accounts@.len() implies held(
                        #[trigger] self.accounts@[i],
                        id,
                    ) == 0 by {
                        lemma_mint_pos(ms, self.accounts@[i].mint);
                    }
                    lemma_total_held_zero(self.accounts@, id);
                }
            }
        }
        Ok(())
    }

    /// Adds an empty account with identity `id`, bound to `mint` and debited
    /// on the word of `authority`.
    pub fn open_account(&mut self, id: u64, mint: u64, authority: u64) -> (r: Result<
        (),
        TokenError,
    >)
        requires
            old(self).wf(),
        ensures
            final(self).wf(),
            r == (if !old(self)@.mints.contains_key(mint) {
                Err(TokenError::NotFound)
            } else if old(self)@.accounts.contains_key(id) {
                Err(TokenError::AlreadyExists)
            } else {
                Ok(())
            }),
            final(self)@.mints == old(self)@.mints,
            final(self)@.accounts == (if r is Ok {
                old(self)@.accounts.insert(id, TokenAccount { id, mint, authority, balance: 0 })
            } else {
                old(self)@.accounts
            }),
    {
        proof {
            lemma_mint_pos(self.mints@, mint);
            lemma_account_pos(self.accounts@, id);
        }
        if self.find_mint(mint).is_none() {
            return Err(TokenError::NotFound);
        }
        if self.find_account(id).is_some() {
            return Err(TokenError::AlreadyExists);
        }
        let ghost accs = self.accounts@;
        let a = TokenAccount { id, mint, authority, balance: 0 };
        self.accounts.push(a);
        proof {
            lemma_accounts_push(accs, a);
            assert forall|k: int| 0 <= k < self.mints@.len() implies total_held(
                self.accounts@,
                #[trigger] self.mints@[k].id,
            ) <= self.mints@[k].supply by {
                lemma_total_held_push(accs, a, self.mints@[k].id);
            }
            assert forall|k: int| 0 <= k < self.accounts@.len() implies mint_pos(
                self.mints@,
                #[trigger] self.accounts@[k].mint,
            ) >= 0 by {
                if k < accs.len() {
                    assert(accs[k] == self.accounts@[k]);
                }
            }
        }
        Ok(())
    }

    /// The balance of the account `id`, if the ledger holds it.
    pub fn balance(&self, id: u64) -> (r: Option<u64>)
        requires
            self.wf(),
        ensures
            r == (if self@.accounts.contains_key(id) {
                Some(self@.accounts[id].balance)
            } else {
                None
            }),
    {
        proof {
            lemma_account_pos(self.accounts@, id);
        }
        match self.find_account(id) {
            Some(i) => Some(self.accounts[i].balance),
            None => None,
        }
    }

    /// The total supply issued by the mint `id`, if the ledger holds it.
    pub fn supply(&self, id: u64) -> (r: Option<u64>)
        requires
            self.wf(),
        ensures
            r == (if self@.mints.contains_key(id) {
                Some(self@.mints[id].supply)
            } else {
                None
            }),
    {
        proof {
            lemma_mint_pos(self.mints@, id);
        }
        match self.find_mint(id) {
            Some(i) => Some(self.mints[i].supply),
            None => None,
        }
    }

    /// The account `id`, if the ledger holds it.
    pub fn account(&self, id: u64) -> (r: Option<TokenAccount>)
        requires
            self.wf(),
        ensures
            r == (if self@.accounts.contains_key(id) {
                Some(self@.accounts[id])
            } else {
                None
            }),
    {
        proof {
            lemma_account_pos(self.accounts@, id);
        }
        match self.find_account(id) {
            Some(i) => Some(self.accounts[i]),
            None => None,
        }
    }

    /// The mint `id`, if the ledger holds it.
    pub fn mint(&self, id: u64) -> (r: Option<Mint>)
        requires
            self.wf(),
        ensures
            r == (if self@.mints.contains_key(id) {
                Some(self@.mints[id])
            } else {
                None
            }),
    {
        proof {
            lemma_mint_pos(self.mints@, id);
        }
        match self.find_mint(id) {
            Some(i) => Some(self.mints[i]),
            None => None,
        }
    }
}

/// In a well-formed ledger every account is bound to a mint of the ledger,
/// and the balances of any one or two accounts bound to a mint are covered by
/// that mint's supply.
pub proof fn lemma_balances_within_supply(l: &Ledger)
    requires
        l.wf(),
    ensures
        forall|id: u64|
            #![trigger l@.accounts[id]]
            l@.accounts.contains_key(id) ==> l@.mints.contains_key(l@.accounts[id].mint)
                && l@.accounts[id].balance <= l@.mints[l@.accounts[id].mint].supply,
        forall|a: u64, b: u64|
            #![trigger l@.accounts[a], l@.accounts[b]]
            l@.accounts.contains_key(a) && l@.accounts.contains_key(b) && a != b
                && l@.accounts[a].mint == l@.accounts[b].mint ==> l@.accounts[a].balance
                + l@.accounts[b].balance <= l@.mints[l@.accounts[a].mint].supply,
{
    let ms = l.mints@;
    let accs = l.accounts@;
    assert forall|id: u64| #[trigger] l@.accounts.contains_key(id) implies l@.mints.contains_key(
        l@.accounts[id].mint,
    ) && l@.accounts[id].balance <= l@.mints[l@.accounts[id].mint].supply by {
        let i = account_pos(accs, id);
        lemma_account_pos(accs, id);
        let mint = accs[i].mint;
        lemma_mint_pos(ms, mint);
        lemma_total_held_one(accs, i, mint);
        assert(total_held(accs, ms[mint_pos(ms, mint)].id) <= ms[mint_pos(ms, mint)].supply);
    }
    assert forall|a: u64, b: u64|
        l@.accounts.contains_key(a) && l@.accounts.contains_key(b) && a != b
            && #[trigger] l@.accounts[a].mint == #[trigger] l@.accounts[b].mint implies l@.accounts[a].balance
        + l@.accounts[b].balance <= l@.mints[l@.accounts[a].mint].supply by {
        let i = account_pos(accs, a);
        let j = account_pos(accs, b);
        lemma_account_pos(accs, a);
        lemma_account_pos(accs, b);
        let mint = accs[i].mint;
        lemma_mint_pos(ms, mint);
        lemma_total_held_pair(accs, i, j, mint);
        assert(total_held(accs, ms[mint_pos(ms, mint)].id) <= ms[mint_pos(ms, mint)].supply);
    }
}

} // verus!
