//! Accounts: balances and the errors of account operations.
use crate::htlc_contract::HashedTimeLockedContract;
use vstd::prelude::*;

verus! {

/// Why an account operation was refused.
#[derive(Clone, Copy, Debug, PartialEq, Eq, Structural)]
pub enum AccountError {
    /// The balance does not cover what is needed.
    InsufficientFunds { balance: u64, needed: u64 },
    /// A value left the range of amounts.
    InvalidCoinValue,
    /// The data of a transaction does not describe the contract it creates.
    InvalidContractData,
    /// The account takes no transaction of this kind.
    InvalidForRecipient,
    /// The proof of a transaction does not hold.
    InvalidProof,
}

/// The kinds of accounts.
#[derive(Clone, Copy, Debug, PartialEq, Eq, Structural)]
pub enum AccountType {
    Basic,
    HTLC,
}

/// An account that holds a balance and nothing else.
#[derive(Clone, Copy, Debug, PartialEq, Eq, Structural)]
pub struct BasicAccount {
    pub balance: u64,
}

/// An account of one of the kinds that the node knows.
#[derive(Clone, Copy, Debug)]
pub enum Account {
    Basic(BasicAccount),
    HTLC(HashedTimeLockedContract),
}

impl Account {
    pub fn account_type(&self) -> (ty: AccountType)
        ensures
            ty == match *self {
                Account::Basic(_) => AccountType::Basic,
                Account::HTLC(_) => AccountType::HTLC,
            },
    {
        match *self {
            Account::Basic(_) => AccountType::Basic,
            Account::HTLC(_) => AccountType::HTLC,
        }
    }

    pub fn balance(&self) -> (balance: u64)
        ensures
            balance == match *self {
                Account::Basic(account) => account.balance,
                Account::HTLC(account) => account.balance,
            },
    {
        match *self {
            Account::Basic(ref account) => account.balance,
            Account::HTLC(ref account) => account.balance,
        }
    }

    /// The balance with `value` added, unless the sum leaves the range of
    /// amounts.
    pub fn balance_add(balance: u64, value: u64) -> (sum: Result<u64, AccountError>)
        ensures
            sum == if balance + value <= u64::MAX {
                Ok::<u64, AccountError>((balance + value) as u64)
            } else {
                Err(AccountError::InvalidCoinValue)
            },
    {
        match balance.checked_add(value) {
            Some(sum) => Ok(sum),
            None => Err(AccountError::InvalidCoinValue),
        }
    }

    /// The balance with `value` taken off, unless the balance does not cover it.
    pub fn balance_sub(balance: u64, value: u64) -> (rest: Result<u64, AccountError>)
        ensures
            rest == if value <= balance {
                Ok::<u64, AccountError>((balance - value) as u64)
            } else {
                Err(AccountError::InsufficientFunds { balance, needed: value })
            },
    {
        match balance.checked_sub(value) {
            Some(rest) => Ok(rest),
            None => Err(AccountError::InsufficientFunds { balance, needed: value }),
        }
    }

    /// Whether the balance covers `value`.
    pub fn balance_sufficient(balance: u64, value: u64) -> (covered: Result<(), AccountError>)
        ensures
            covered == if balance < value {
                Err::<(), AccountError>(AccountError::InsufficientFunds { balance, needed: value })
            } else {
                Ok(())
            },
    {
        if balance < value {
            Err(AccountError::InsufficientFunds { balance, needed: value })
        } else {
            Ok(())
        }
    }
}

} // verus!
