//! The plan of a token load run: which way each account's transfers go, how
//! many tokens each of them moves, how the transfers that hand the tokens out
//! are cut into batches, and the fixed arguments of the three token calls.
//! Nothing here signs or sends: the plan is plain values, and whoever holds
//! the keys turns it into transactions.

use crate::types::{bytes_copy, AccountAddress};
use vstd::prelude::*;

verus! {

/// The tokens that an account holds once it is funded.
pub const INITIAL_NFT_BALANCE: u64 = 50_000;

/// One more than `INITIAL_NFT_BALANCE`: the most transfers that one account
/// can make in one round.
pub const MAX_TRANSFERS_PER_ACCOUNT: usize = 50_001;

/// The most transactions that are sent in one batch.
pub const BATCH_LIMIT: usize = 100;

/// The coins that the creator of the collection starts with.
pub const CREATOR_FUNDING: u64 = 10_000_000;

/// The tokens that each worker's source account receives from the creator.
pub const WORKER_TOKEN_SUPPLY: u64 = 1_000_000_000;

/// The number of tokens that are minted.
pub const TOKEN_BALANCE: u64 = 100_000_000_000;

/// The name of the collection.
pub const COLLECTION_NAME: &'static str = "collection name";

/// The name of the token.
pub const TOKEN_NAME: &'static str = "token name";

/// The amount of the transfer `i` of `k`: one token, but for the last
/// transfer, which moves what is left of `INITIAL_NFT_BALANCE` and one token
/// more.
pub open spec fn amount_at(i: int, k: int) -> int {
    if i != k - 1 {
        1
    } else {
        50_001 - k
    }
}

/// The amount of the transfer `i` of `transactions_per_account`.
pub fn transfer_amount(i: usize, transactions_per_account: usize) -> (amount: u64)
    requires
        i < transactions_per_account,
        transactions_per_account <= MAX_TRANSFERS_PER_ACCOUNT,
    ensures
        amount == amount_at(i as int, transactions_per_account as int),
{
    if i != transactions_per_account - 1 {
        1
    } else {
        INITIAL_NFT_BALANCE + 1 - transactions_per_account as u64
    }
}

/// The sum of the amounts of the first `n` transfers of `k`.
pub open spec fn amounts_sum(n: int, k: int) -> int
    decreases n,
{
    if n <= 0 {
        0
    } else {
        amounts_sum(n - 1, k) + amount_at(n - 1, k)
    }
}

/// All the transfers of a round but the last move one token each.
pub proof fn lemma_amounts_before_last(n: int, k: int)
    requires
        0 <= n < k,
    ensures
        amounts_sum(n, k) == n,
    decreases n,
{
    if n > 0 {
        lemma_amounts_before_last(n - 1, k);
    }
}

/// A round of transfers moves `INITIAL_NFT_BALANCE` tokens in all, however
/// many transfers it is cut into: what one round hands to an account, the
/// next takes back to the last token.
pub proof fn law_round_moves_the_balance(k: int)
    requires
        1 <= k <= 50_001,
    ensures
        amounts_sum(k, k) == INITIAL_NFT_BALANCE,
{
    lemma_amounts_before_last(k - 1, k);
}

/// The accounts that hold tokens at the moment: the others are funded by
/// their next round, these hand the tokens back.
pub struct FundedBook {
    holders: Vec<AccountAddress>,
}

impl FundedBook {
    /// Whether `account` holds tokens.
    pub closed spec fn funded(&self, account: AccountAddress) -> bool {
        self.holders@.contains(account)
    }

    /// No account is listed twice.
    pub closed spec fn wf(&self) -> bool {
        self.holders@.no_duplicates()
    }

    /// A book in which no account holds tokens.
    pub fn new() -> (r: Self)
        ensures
            r.wf(),
            forall|a: AccountAddress| !r.funded(a),
    {
        FundedBook { holders: Vec::new() }
    }

    /// Whether `account` holds tokens.
    pub fn is_funded(&self, account: AccountAddress) -> (r: bool)
        ensures
            r == self.funded(account),
    {
        self.find(account) < self.holders.len()
    }

    /// The place of `account` among the holders; their number if it is none.
    fn find(&self, account: AccountAddress) -> (i: usize)
        ensures
            i <= self.holders@.len(),
            i < self.holders@.len() ==> self.holders@[i as int] == account,
            i == self.holders@.len() ==> !self.holders@.contains(account),
    {
        let mut i: usize = 0;
        while i < self.holders.len()
            invariant
                i <= self.holders@.len(),
                forall|j: int| 0 <= j < i ==> self.holders@[j] != account,
            decreases self.holders@.len() - i,
        {
            if self.holders[i].hi == account.hi && self.holders[i].lo == account.lo {
                return i;
            }
            i += 1;
        }
        i
    }

    /// The round of `account`: whether it holds tokens, so that its
    /// transfers hand them back, or does not, so that the transfers fund it;
    /// and the amounts of its transfers, in order. After the round the
    /// account stands on the other side.
    pub fn plan_account(&mut self, account: AccountAddress, transactions_per_account: usize) -> (r:
        (bool, Vec<u64>))
        requires
            old(self).wf(),
            transactions_per_account <= MAX_TRANSFERS_PER_ACCOUNT,
        ensures
            final(self).wf(),
            r.0 == old(self).funded(account),
            r.1@.len() == transactions_per_account,
            forall|i: int|
                0 <= i < r.1@.len() ==> #[trigger] r.1@[i] == amount_at(
                    i,
                    transactions_per_account as int,
                ),
            final(self).funded(account) == !old(self).funded(account),
            forall|a: AccountAddress|
                a != account ==> final(self).funded(a) == old(self).funded(a),
    {
        let at = self.find(account);
        let was_funded = at < self.holders.len();
        let mut amounts: Vec<u64> = Vec::new();
        let mut i: usize = 0;
        while i < transactions_per_account
            invariant
                i <= transactions_per_account,
                transactions_per_account <= MAX_TRANSFERS_PER_ACCOUNT,
                amounts@.len() == i,
                forall|j: int|
                    0 <= j < i ==> #[trigger] amounts@[j] == amount_at(
                        j,
                        transactions_per_account as int,
                    ),
            decreases transactions_per_account - i,
        {
            amounts.push(transfer_amount(i, transactions_per_account));
            i += 1;
        }
        let ghost before = self.holders@;
        if was_funded {
            self.holders.remove(at);
            proof {
                let after = self.holders@;
                assert(after =~= before.remove(at as int));
                assert(!after.contains(account)) by {
                    if after.contains(account) {
                        let j = choose|j: int| 0 <= j < after.len() && after[j] == account;
                        let j0 = if j < at { j } else { j + 1 };
                        assert(before[j0] == account);
                    }
                }
                assert forall|a: AccountAddress| a != account implies after.contains(a)
                    == before.contains(a) by {
                    if before.contains(a) {
                        let j = choose|j: int| 0 <= j < before.len() && before[j] == a;
                        let j1 = if j < at { j } else { j - 1 };
                        assert(after[j1] == a);
                    }
                    if after.contains(a) {
                        let j = choose|j: int| 0 <= j < after.len() && after[j] == a;
                        let j0 = if j < at { j } else { j + 1 };
                        assert(before[j0] == a);
                    }
                }
                assert(after.no_duplicates()) by {
                    assert forall|x: int, y: int|
                        0 <= x < after.len() && 0 <= y < after.len() && x != y implies after[x]
                        != after[y] by {
                        let x0 = if x < at { x } else { x + 1 };
                        let y0 = if y < at { y } else { y + 1 };
                        assert(before[x0] != before[y0]);
                    }
                }
            }
        } else {
            self.holders.push(account);
            proof {
                let after = self.holders@;
                assert(after =~= before.push(account));
                assert(after[before.len() as int] == account);
                assert forall|a: AccountAddress| a != account implies after.contains(a)
                    == before.contains(a) by {
                    if before.contains(a) {
                        let j = choose|j: int| 0 <= j < before.len() && before[j] == a;
                        assert(after[j] == a);
                    }
                    if after.contains(a) {
                        let j = choose|j: int| 0 <= j < after.len() && after[j] == a;
                        assert(before[j] == a);
                    }
                }
            }
        }
        (was_funded, amounts)
    }
}

/// Whether `account` stands an odd number of times among the first `n` of
/// `accounts`: whether their rounds leave it on the other side.
pub open spec fn changes_sides(accounts: Seq<AccountAddress>, n: int, account: AccountAddress) -> bool
    decreases n,
{
    if n <= 0 {
        false
    } else {
        changes_sides(accounts, n - 1, account) != (accounts[n - 1] == account)
    }
}

/// One account's part of a round: whether its transfers hand tokens back,
/// and their amounts in order.
pub struct AccountRound {
    pub account: AccountAddress,
    pub hands_back: bool,
    pub amounts: Vec<u64>,
}

impl FundedBook {
    /// The round of `accounts`, one account after the other, in their
    /// order: each makes `transactions_per_account` transfers, which hand
    /// tokens back if the account holds tokens when its turn comes and fund
    /// it if it does not. An account that stands in the list twice changes
    /// sides in between. A round of no accounts is empty, whatever the
    /// number of transfers.
    pub fn plan_round(&mut self, accounts: &Vec<AccountAddress>, transactions_per_account: usize) -> (r:
        Vec<AccountRound>)
        requires
            old(self).wf(),
            accounts@.len() == 0 || transactions_per_account <= MAX_TRANSFERS_PER_ACCOUNT,
        ensures
            final(self).wf(),
            r@.len() == accounts@.len(),
            forall|a: int|
                0 <= a < r@.len() ==> {
                    &&& (#[trigger] r@[a]).account == accounts@[a]
                    &&& r@[a].hands_back == (old(self).funded(accounts@[a]) != changes_sides(
                        accounts@,
                        a,
                        accounts@[a],
                    ))
                    &&& r@[a].amounts@.len() == transactions_per_account
                    &&& forall|i: int|
                        0 <= i < transactions_per_account ==> #[trigger] r@[a].amounts@[i]
                            == amount_at(i, transactions_per_account as int)
                },
            forall|x: AccountAddress|
                final(self).funded(x) == (old(self).funded(x) != changes_sides(
                    accounts@,
                    accounts@.len() as int,
                    x,
                )),
    {
        let mut out: Vec<AccountRound> = Vec::new();
        let mut a: usize = 0;
        while a < accounts.len()
            invariant
                a <= accounts@.len(),
                self.wf(),
                accounts@.len() == 0 || transactions_per_account <= MAX_TRANSFERS_PER_ACCOUNT,
                out@.len() == a,
                forall|b: int|
                    0 <= b < a ==> {
                        &&& (#[trigger] out@[b]).account == accounts@[b]
                        &&& out@[b].hands_back == (old(self).funded(accounts@[b]) != changes_sides(
                            accounts@,
                            b,
                            accounts@[b],
                        ))
                        &&& out@[b].amounts@.len() == transactions_per_account
                        &&& forall|i: int|
                            0 <= i < transactions_per_account ==> #[trigger] out@[b].amounts@[i]
                                == amount_at(i, transactions_per_account as int)
                    },
                forall|x: AccountAddress|
                    self.funded(x) == (old(self).funded(x) != changes_sides(accounts@, a as int, x)),
            decreases accounts@.len() - a,
        {
            let account = accounts[a];
            let planned = self.plan_account(account, transactions_per_account);
            out.push(AccountRound { account, hands_back: planned.0, amounts: planned.1 });
            a += 1;
        }
        out
    }
}

/// The end of the batch `j` of `n` transactions.
pub open spec fn chunk_end(j: int, n: int) -> int {
    if 100 * (j + 1) <= n {
        100 * (j + 1)
    } else {
        n
    }
}

/// The batches in which `n` transactions are sent, each as the place of its
/// first transaction and the place after its last: every batch but the last
/// is full, and none is empty.
pub fn chunk_bounds(n: usize) -> (r: Vec<(usize, usize)>)
    ensures
        r@.len() == (n + 99) / 100,
        forall|j: int|
            0 <= j < r@.len() ==> (#[trigger] r@[j]).0 == 100 * j && r@[j].1 == chunk_end(
                j,
                n as int,
            ),
{
    let mut out: Vec<(usize, usize)> = Vec::new();
    let mut start: usize = 0;
    while start < n
        invariant
            start <= n,
            start == n || start == 100 * out@.len(),
            start == n ==> out@.len() == (n + 99) / 100,
            forall|j: int|
                0 <= j < out@.len() ==> (#[trigger] out@[j]).0 == 100 * j && out@[j].1
                    == chunk_end(j, n as int),
        decreases n - start,
    {
        let end: usize = if n - start >= BATCH_LIMIT {
            start + BATCH_LIMIT
        } else {
            n
        };
        out.push((start, end));
        start = end;
    }
    out
}

/// The arguments of the call that creates the collection.
pub struct CollectionArguments {
    pub name: Vec<u8>,
    pub description: &'static str,
    pub uri: &'static str,
    pub maximum: u64,
    pub mutate_setting: Vec<bool>,
}

/// The arguments of the call that creates the token.
pub struct TokenArguments {
    pub collection: Vec<u8>,
    pub name: Vec<u8>,
    pub description: &'static str,
    pub balance: u64,
    pub maximum: u64,
    pub uri: &'static str,
    pub royalty_payee: AccountAddress,
    pub royalty_points_denominator: u64,
    pub royalty_points_numerator: u64,
    pub mutate_setting: Vec<bool>,
    pub property_keys: Vec<Vec<u8>>,
    pub property_values: Vec<Vec<u8>>,
    pub property_types: Vec<Vec<u8>>,
}

/// The arguments of the call that hands tokens from one account to another.
pub struct TransferArguments {
    pub creator: AccountAddress,
    pub collection: Vec<u8>,
    pub name: Vec<u8>,
    pub property_version: u64,
    pub amount: u64,
}

/// `n` switches, all off.
pub fn all_off(n: usize) -> (r: Vec<bool>)
    ensures
        r@.len() == n,
        forall|i: int| 0 <= i < n ==> !#[trigger] r@[i],
{
    let mut out: Vec<bool> = Vec::new();
    let mut i: usize = 0;
    while i < n
        invariant
            i <= n,
            out@.len() == i,
            forall|j: int| 0 <= j < i ==> !#[trigger] out@[j],
        decreases n - i,
    {
        out.push(false);
        i += 1;
    }
    out
}

/// A list of one empty byte string.
pub fn one_empty() -> (r: Vec<Vec<u8>>)
    ensures
        r@.len() == 1,
        r@[0]@.len() == 0,
{
    let mut out: Vec<Vec<u8>> = Vec::new();
    out.push(Vec::new());
    out
}

/// The collection `collection_name`: without a limit on its tokens, and
/// with nothing that can be changed later.
pub fn collection_arguments(collection_name: &Vec<u8>) -> (r: CollectionArguments)
    ensures
        r.name@ == collection_name@,
        r.description@ == "description"@,
        r.uri@ == "uri"@,
        r.maximum == u64::MAX,
        r.mutate_setting@.len() == 3,
        forall|i: int| 0 <= i < 3 ==> !#[trigger] r.mutate_setting@[i],
{
    CollectionArguments {
        name: bytes_copy(collection_name),
        description: "description",
        uri: "uri",
        maximum: u64::MAX,
        mutate_setting: all_off(3),
    }
}

/// The token `token_name` of the collection `collection_name`:
/// `TOKEN_BALANCE` of it, without a limit, no royalty to `creator` (zero
/// parts of one), nothing that can be changed later, and one empty property.
pub fn token_arguments(collection_name: &Vec<u8>, token_name: &Vec<u8>, creator: AccountAddress) -> (r:
    TokenArguments)
    ensures
        r.collection@ == collection_name@,
        r.name@ == token_name@,
        r.description@ == "collection description"@,
        r.balance == TOKEN_BALANCE,
        r.maximum == u64::MAX,
        r.uri@ == "uri"@,
        r.royalty_payee == creator,
        r.royalty_points_denominator == 1,
        r.royalty_points_numerator == 0,
        r.mutate_setting@.len() == 5,
        forall|i: int| 0 <= i < 5 ==> !#[trigger] r.mutate_setting@[i],
        r.property_keys@.len() == 1 && r.property_keys@[0]@.len() == 0,
        r.property_values@.len() == 1 && r.property_values@[0]@.len() == 0,
        r.property_types@.len() == 1 && r.property_types@[0]@.len() == 0,
{
    TokenArguments {
        collection: bytes_copy(collection_name),
        name: bytes_copy(token_name),
        description: "collection description",
        balance: TOKEN_BALANCE,
        maximum: u64::MAX,
        uri: "uri",
        royalty_payee: creator,
        royalty_points_denominator: 1,
        royalty_points_numerator: 0,
        mutate_setting: all_off(5),
        property_keys: one_empty(),
        property_values: one_empty(),
        property_types: one_empty(),
    }
}

/// The transfer of `amount` tokens of `creator`'s token `token_name`, in
/// its first version.
pub fn transfer_arguments(
    creator: AccountAddress,
    collection_name: &Vec<u8>,
    token_name: &Vec<u8>,
    amount: u64,
) -> (r: TransferArguments)
    ensures
        r.creator == creator,
        r.collection@ == collection_name@,
        r.name@ == token_name@,
        r.property_version == 0,
        r.amount == amount,
{
    TransferArguments {
        creator,
        collection: bytes_copy(collection_name),
        name: bytes_copy(token_name),
        property_version: 0,
        amount,
    }
}

} // verus!
