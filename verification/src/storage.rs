//! What the store needs from the library when it is opened: the budgets that
//! a new vault starts with, and the statement that hands the vault's key to
//! the database.

use vstd::prelude::*;
use vstd::string::StringExecFns;
use crate::dto::{BudgetConfig, BudgetConfigView};
use crate::summary::{budgets_view, distinct_categories};

verus! {

/// The budgets of a new vault, in hundredths.
pub open spec fn default_budgets() -> Seq<BudgetConfigView> {
    seq![
        BudgetConfigView { category: "Housing"@, cap: 180_000 },
        BudgetConfigView { category: "Groceries"@, cap: 70_000 },
        BudgetConfigView { category: "Dining"@, cap: 35_000 },
        BudgetConfigView { category: "Transportation"@, cap: 25_000 },
        BudgetConfigView { category: "Discretionary"@, cap: 50_000 },
    ]
}

/// The budgets after seeding: the defaults where there were none, else what
/// was there.
pub open spec fn seeded(budgets: Seq<BudgetConfigView>) -> Seq<BudgetConfigView> {
    if budgets.len() == 0 {
        default_budgets()
    } else {
        budgets
    }
}

/// No two default budgets are for one category.
pub proof fn lemma_default_budgets_distinct()
    ensures
        distinct_categories(default_budgets()),
{
    reveal_strlit("Housing");
    reveal_strlit("Groceries");
    reveal_strlit("Dining");
    reveal_strlit("Transportation");
    reveal_strlit("Discretionary");
    let d = default_budgets();
    assert(d[0].category.len() == 7);
    assert(d[1].category.len() == 9);
    assert(d[2].category.len() == 6);
    assert(d[3].category.len() == 14);
    assert(d[4].category.len() == 13);
}

/// Gives a vault without budgets the default ones. A vault that has budgets
/// keeps them as they are. Returns whether the defaults were added.
pub fn seed_default_budgets(budgets: &mut Vec<BudgetConfig>) -> (added: bool)
    ensures
        budgets_view(final(budgets)@) == seeded(budgets_view(old(budgets)@)),
        added == (old(budgets)@.len() == 0),
        distinct_categories(budgets_view(old(budgets)@)) ==> distinct_categories(
            budgets_view(final(budgets)@),
        ),
{
    if budgets.len() > 0 {
        return false;
    }
    budgets.push(BudgetConfig { category: "Housing".to_owned(), cap: 180_000 });
    budgets.push(BudgetConfig { category: "Groceries".to_owned(), cap: 70_000 });
    budgets.push(BudgetConfig { category: "Dining".to_owned(), cap: 35_000 });
    budgets.push(BudgetConfig { category: "Transportation".to_owned(), cap: 25_000 });
    budgets.push(BudgetConfig { category: "Discretionary".to_owned(), cap: 50_000 });
    proof {
        assert(budgets_view(budgets@) == default_budgets());
        lemma_default_budgets_distinct();
    }
    true
}

/// The character that writes a number below sixteen in lowercase
/// hexadecimal.
pub open spec fn hex_digit(n: int) -> char {
    if n < 10 {
        ('0' as int + n) as char
    } else {
        ('a' as int + n - 10) as char
    }
}

/// Bytes written in lowercase hexadecimal, two digits a byte.
pub open spec fn hex_text(bytes: Seq<u8>) -> Seq<char>
    decreases bytes.len(),
{
    if bytes.len() == 0 {
        Seq::empty()
    } else {
        hex_text(bytes.drop_last()) + seq![
            hex_digit(bytes.last() as int / 16),
            hex_digit(bytes.last() as int % 16),
        ]
    }
}

/// `hex::encode`: every byte becomes two lowercase hexadecimal digits, the
/// high half first.
#[verifier::external_body]
fn hex_encode(bytes: &[u8; 32]) -> (text: String)
    ensures
        text@ == hex_text(bytes@),
{
    hex::encode(bytes)
}

/// The statement that hands a vault's key to the database.
pub fn key_statement(key: &[u8; 32]) -> (statement: String)
    ensures
        statement@ == "PRAGMA key = \"x'"@ + hex_text(key@) + "'\";"@,
{
    let mut statement = "PRAGMA key = \"x'".to_owned();
    statement.append(hex_encode(key).as_str());
    statement.append("'\";");
    statement
}

} // verus!
