use core_mempool::transfer_plan::{
    all_off, chunk_bounds, collection_arguments, one_empty, token_arguments, transfer_amount,
    transfer_arguments, FundedBook, BATCH_LIMIT, COLLECTION_NAME, CREATOR_FUNDING,
    INITIAL_NFT_BALANCE, MAX_TRANSFERS_PER_ACCOUNT, TOKEN_BALANCE, TOKEN_NAME,
    WORKER_TOKEN_SUPPLY,
};
use core_mempool::types::AccountAddress;

fn acct(i: u128) -> AccountAddress {
    AccountAddress::new(0, i)
}

#[test]
fn amounts_of_a_round() {
    assert_eq!(transfer_amount(0, 1), 50_000);
    assert_eq!(transfer_amount(0, 3), 1);
    assert_eq!(transfer_amount(1, 3), 1);
    assert_eq!(transfer_amount(2, 3), 49_998);
    assert_eq!(transfer_amount(50_000, 50_001), 0);
    assert_eq!(transfer_amount(49_999, 50_001), 1);
}

#[test]
fn a_round_moves_the_whole_balance() {
    for k in [1usize, 2, 7, 100, 50_000, 50_001] {
        let total: u64 = (0..k).map(|i| transfer_amount(i, k)).sum();
        assert_eq!(total, INITIAL_NFT_BALANCE);
    }
    assert_eq!(MAX_TRANSFERS_PER_ACCOUNT as u64, INITIAL_NFT_BALANCE + 1);
}

#[test]
fn accounts_change_sides_with_each_round() {
    let mut book = FundedBook::new();
    assert!(!book.is_funded(acct(1)));
    let (funded, amounts) = book.plan_account(acct(1), 3);
    assert!(!funded);
    assert_eq!(amounts, vec![1, 1, 49_998]);
    assert!(book.is_funded(acct(1)));
    assert!(!book.is_funded(acct(2)));
    let (funded, amounts) = book.plan_account(acct(2), 1);
    assert!(!funded);
    assert_eq!(amounts, vec![50_000]);
    let (funded, amounts) = book.plan_account(acct(1), 2);
    assert!(funded);
    assert_eq!(amounts, vec![1, 49_999]);
    assert!(!book.is_funded(acct(1)));
    assert!(book.is_funded(acct(2)));
    let (funded, _) = book.plan_account(acct(1), 2);
    assert!(!funded);
    assert!(book.is_funded(acct(1)));
}

#[test]
fn an_empty_round_changes_sides_too() {
    let mut book = FundedBook::new();
    let (funded, amounts) = book.plan_account(acct(5), 0);
    assert!(!funded);
    assert!(amounts.is_empty());
    assert!(book.is_funded(acct(5)));
    let (funded, amounts) = book.plan_account(acct(5), 0);
    assert!(funded);
    assert!(amounts.is_empty());
    assert!(!book.is_funded(acct(5)));
}

#[test]
fn addresses_are_told_apart_by_both_halves() {
    let mut book = FundedBook::new();
    book.plan_account(AccountAddress::new(1, 2), 1);
    assert!(book.is_funded(AccountAddress::new(1, 2)));
    assert!(!book.is_funded(AccountAddress::new(2, 1)));
    assert!(!book.is_funded(AccountAddress::new(1, 3)));
    assert!(!book.is_funded(AccountAddress::new(0, 2)));
}

#[test]
fn batches_of_a_hundred() {
    assert_eq!(chunk_bounds(0), vec![]);
    assert_eq!(chunk_bounds(1), vec![(0, 1)]);
    assert_eq!(chunk_bounds(99), vec![(0, 99)]);
    assert_eq!(chunk_bounds(100), vec![(0, 100)]);
    assert_eq!(chunk_bounds(101), vec![(0, 100), (100, 101)]);
    assert_eq!(chunk_bounds(250), vec![(0, 100), (100, 200), (200, 250)]);
    assert_eq!(BATCH_LIMIT, 100);
}

#[test]
fn batches_are_the_chunks_of_a_slice() {
    for n in [0usize, 1, 5, 100, 199, 200, 201, 1234] {
        let items: Vec<usize> = (0..n).collect();
        let expected: Vec<&[usize]> = items.chunks(100).collect();
        let bounds = chunk_bounds(n);
        assert_eq!(bounds.len(), expected.len());
        for (j, (from, to)) in bounds.iter().enumerate() {
            assert_eq!(&items[*from..*to], expected[j]);
        }
    }
}

#[test]
fn arguments_of_the_collection() {
    let a = collection_arguments(&b"collection name".to_vec());
    assert_eq!(a.name, b"collection name".to_vec());
    assert_eq!(a.description, "description");
    assert_eq!(a.uri, "uri");
    assert_eq!(a.maximum, u64::MAX);
    assert_eq!(a.mutate_setting, vec![false, false, false]);
}

#[test]
fn arguments_of_the_token() {
    let a = token_arguments(&b"c".to_vec(), &b"t".to_vec(), acct(9));
    assert_eq!(a.collection, b"c".to_vec());
    assert_eq!(a.name, b"t".to_vec());
    assert_eq!(a.description, "collection description");
    assert_eq!(a.balance, 100_000_000_000);
    assert_eq!(a.balance, TOKEN_BALANCE);
    assert_eq!(a.maximum, u64::MAX);
    assert_eq!(a.uri, "uri");
    assert_eq!(a.royalty_payee, acct(9));
    assert_eq!(a.royalty_points_denominator, 1);
    assert_eq!(a.royalty_points_numerator, 0);
    assert_eq!(a.mutate_setting, vec![false; 5]);
    assert_eq!(a.property_keys, vec![Vec::<u8>::new()]);
    assert_eq!(a.property_values, vec![Vec::<u8>::new()]);
    assert_eq!(a.property_types, vec![Vec::<u8>::new()]);
}

#[test]
fn arguments_of_a_transfer() {
    let a = transfer_arguments(acct(3), &b"c".to_vec(), &b"t".to_vec(), 77);
    assert_eq!(a.creator, acct(3));
    assert_eq!(a.collection, b"c".to_vec());
    assert_eq!(a.name, b"t".to_vec());
    assert_eq!(a.property_version, 0);
    assert_eq!(a.amount, 77);
}

#[test]
fn fixed_values_of_a_run() {
    assert_eq!(COLLECTION_NAME, "collection name");
    assert_eq!(TOKEN_NAME, "token name");
    assert_eq!(CREATOR_FUNDING, 10_000_000);
    assert_eq!(WORKER_TOKEN_SUPPLY, 1_000_000_000);
    assert_eq!(all_off(0), Vec::<bool>::new());
    assert_eq!(all_off(2), vec![false, false]);
    assert_eq!(one_empty(), vec![Vec::<u8>::new()]);
}

#[test]
fn a_round_takes_the_accounts_in_order() {
    let mut book = FundedBook::new();
    book.plan_account(acct(2), 1);
    let round = book.plan_round(&vec![acct(1), acct(2), acct(1), acct(3)], 2);
    let sides: Vec<(AccountAddress, bool)> =
        round.iter().map(|part| (part.account, part.hands_back)).collect();
    assert_eq!(
        sides,
        vec![(acct(1), false), (acct(2), true), (acct(1), true), (acct(3), false)]
    );
    for part in &round {
        assert_eq!(part.amounts, vec![1, 49_999]);
    }
    assert!(!book.is_funded(acct(1)));
    assert!(!book.is_funded(acct(2)));
    assert!(book.is_funded(acct(3)));
    assert!(book.plan_round(&Vec::new(), 50_001).is_empty());
    assert!(book.plan_round(&Vec::new(), usize::MAX).is_empty());
}
