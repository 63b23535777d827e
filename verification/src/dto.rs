//! The records that cross the library's boundary, each with the
//! mathematical model that the contracts speak of.
//!
//! Texts are modelled as sequences of characters. Amounts are whole numbers
//! of hundredths; totals over many rows are wide enough never to overflow.

use vstd::prelude::*;

verus! {

/// The model of an optional text.
pub open spec fn text_option(o: Option<String>) -> Option<Seq<char>> {
    match o {
        Some(s) => Some(s@),
        None => None,
    }
}

/// A copy of an optional text.
pub fn clone_text_option(o: &Option<String>) -> (r: Option<String>)
    ensures
        text_option(r) == text_option(*o),
{
    match o {
        Some(s) => Some(s.clone()),
        None => None,
    }
}

/// The direction in which money moves: out of the account or into it.
#[derive(Debug, Clone, Copy, PartialEq, Eq, Structural)]
pub enum FlowKind {
    Debit,
    Credit,
}

impl FlowKind {
    /// The flow of an amount: a debit exactly when the amount is negative.
    pub open spec fn of(amount: int) -> FlowKind {
        if amount < 0 {
            FlowKind::Debit
        } else {
            FlowKind::Credit
        }
    }

    /// The word that stands for a flow in stored rows.
    pub open spec fn name(self) -> Seq<char> {
        match self {
            FlowKind::Debit => "debit"@,
            FlowKind::Credit => "credit"@,
        }
    }

    /// The flow that a stored word stands for: `credit` is a credit, every
    /// other word a debit.
    pub open spec fn named(name: Seq<char>) -> FlowKind {
        if name == "credit"@ {
            FlowKind::Credit
        } else {
            FlowKind::Debit
        }
    }

    /// The flow of an amount: a debit exactly when the amount is negative, a
    /// credit exactly when it is zero or more.
    pub fn from_amount(amount: i64) -> (flow: Self)
        ensures
            flow == FlowKind::of(amount as int),
            flow == FlowKind::Debit <==> amount < 0,
            flow == FlowKind::Credit <==> amount >= 0,
    {
        if amount >= 0 {
            FlowKind::Credit
        } else {
            FlowKind::Debit
        }
    }

    /// The word that stands for this flow in stored rows.
    pub fn as_str(&self) -> (s: &'static str)
        ensures
            s@ == self.name(),
    {
        match self {
            FlowKind::Debit => "debit",
            FlowKind::Credit => "credit",
        }
    }

    /// Reads a flow back from its stored word.
    pub fn from_name(name: &str) -> (flow: Self)
        ensures
            flow == FlowKind::named(name@),
    {
        let word = name.to_owned();
        let credit = "credit".to_owned();
        if word == credit {
            FlowKind::Credit
        } else {
            FlowKind::Debit
        }
    }
}

/// The two words that stand for flows are different, so a flow that was
/// written can be read back.
pub proof fn lemma_flow_name_round_trip(flow: FlowKind)
    ensures
        FlowKind::named(flow.name()) == flow,
{
    reveal_strlit("debit");
    reveal_strlit("credit");
    assert("debit"@.len() != "credit"@.len());
}

/// A transaction that waits in the inbox.
#[derive(Debug, Clone)]
pub struct InboxItem {
    pub temp_id: String,
    pub date: String,
    pub description: String,
    pub amount: i64,
    pub flow: FlowKind,
    pub suggested_category: Option<String>,
}

/// The model of an [`InboxItem`].
pub struct InboxItemView {
    pub temp_id: Seq<char>,
    pub date: Seq<char>,
    pub description: Seq<char>,
    pub amount: int,
    pub flow: FlowKind,
    pub suggested_category: Option<Seq<char>>,
}

impl View for InboxItem {
    type V = InboxItemView;

    open spec fn view(&self) -> InboxItemView {
        InboxItemView {
            temp_id: self.temp_id@,
            date: self.date@,
            description: self.description@,
            amount: self.amount as int,
            flow: self.flow,
            suggested_category: text_option(self.suggested_category),
        }
    }
}

impl InboxItemView {
    /// Whether the flow is the one that the amount's sign gives.
    pub open spec fn consistent(self) -> bool {
        self.flow == FlowKind::of(self.amount)
    }
}

impl InboxItem {
    /// A copy of this item.
    pub fn duplicate(&self) -> (r: Self)
        ensures
            r@ == self@,
    {
        InboxItem {
            temp_id: self.temp_id.clone(),
            date: self.date.clone(),
            description: self.description.clone(),
            amount: self.amount,
            flow: self.flow,
            suggested_category: clone_text_option(&self.suggested_category),
        }
    }
}

/// A transaction of the permanent ledger.
#[derive(Debug, Clone)]
pub struct LedgerTransaction {
    pub id: u64,
    pub date: String,
    pub description: String,
    pub amount: i64,
    pub flow: FlowKind,
    pub category: Option<String>,
}

/// The model of a [`LedgerTransaction`].
pub struct LedgerTransactionView {
    pub id: int,
    pub date: Seq<char>,
    pub description: Seq<char>,
    pub amount: int,
    pub flow: FlowKind,
    pub category: Option<Seq<char>>,
}

impl View for LedgerTransaction {
    type V = LedgerTransactionView;

    open spec fn view(&self) -> LedgerTransactionView {
        LedgerTransactionView {
            id: self.id as int,
            date: self.date@,
            description: self.description@,
            amount: self.amount as int,
            flow: self.flow,
            category: text_option(self.category),
        }
    }
}

impl LedgerTransactionView {
    /// Whether the flow is the one that the amount's sign gives.
    pub open spec fn consistent(self) -> bool {
        self.flow == FlowKind::of(self.amount)
    }
}

impl LedgerTransaction {
    /// A copy of this transaction.
    pub fn duplicate(&self) -> (r: Self)
        ensures
            r@ == self@,
    {
        LedgerTransaction {
            id: self.id,
            date: self.date.clone(),
            description: self.description.clone(),
            amount: self.amount,
            flow: self.flow,
            category: clone_text_option(&self.category),
        }
    }
}

/// What was spent in one category.
#[derive(Debug, Clone)]
pub struct CategoryAmount {
    pub category: String,
    pub amount: i128,
}

/// The model of a [`CategoryAmount`].
pub struct CategoryAmountView {
    pub category: Seq<char>,
    pub amount: int,
}

impl View for CategoryAmount {
    type V = CategoryAmountView;

    open spec fn view(&self) -> CategoryAmountView {
        CategoryAmountView { category: self.category@, amount: self.amount as int }
    }
}

/// A budget held against what was spent in its category.
#[derive(Debug, Clone)]
pub struct BudgetUsage {
    pub category: String,
    pub cap: u64,
    pub spent: i128,
}

/// The model of a [`BudgetUsage`].
pub struct BudgetUsageView {
    pub category: Seq<char>,
    pub cap: int,
    pub spent: int,
}

impl View for BudgetUsage {
    type V = BudgetUsageView;

    open spec fn view(&self) -> BudgetUsageView {
        BudgetUsageView {
            category: self.category@,
            cap: self.cap as int,
            spent: self.spent as int,
        }
    }
}

/// The models of a sequence of category amounts.
pub open spec fn amounts_view(amounts: Seq<CategoryAmount>) -> Seq<CategoryAmountView> {
    amounts.map_values(|c: CategoryAmount| c@)
}

/// The models of a sequence of budget usages.
pub open spec fn usages_view(usages: Seq<BudgetUsage>) -> Seq<BudgetUsageView> {
    usages.map_values(|b: BudgetUsage| b@)
}

/// The summary of one month.
#[derive(Debug, Clone)]
pub struct SummaryResponse {
    pub month: String,
    pub total_spend: i128,
    pub by_category: Vec<CategoryAmount>,
    pub budgets: Vec<BudgetUsage>,
}

/// The model of a [`SummaryResponse`].
pub struct SummaryResponseView {
    pub month: Seq<char>,
    pub total_spend: int,
    pub by_category: Seq<CategoryAmountView>,
    pub budgets: Seq<BudgetUsageView>,
}

impl View for SummaryResponse {
    type V = SummaryResponseView;

    open spec fn view(&self) -> SummaryResponseView {
        SummaryResponseView {
            month: self.month@,
            total_spend: self.total_spend as int,
            by_category: amounts_view(self.by_category@),
            budgets: usages_view(self.budgets@),
        }
    }
}

/// One month of the net-worth curve.
#[derive(Debug, Clone)]
pub struct NetWorthPoint {
    pub date: String,
    pub net_worth: i128,
    pub cash: i128,
    pub invested: i128,
    pub debt: i128,
}

/// The model of a [`NetWorthPoint`].
pub struct NetWorthPointView {
    pub date: Seq<char>,
    pub net_worth: int,
    pub cash: int,
    pub invested: int,
    pub debt: int,
}

impl View for NetWorthPoint {
    type V = NetWorthPointView;

    open spec fn view(&self) -> NetWorthPointView {
        NetWorthPointView {
            date: self.date@,
            net_worth: self.net_worth as int,
            cash: self.cash as int,
            invested: self.invested as int,
            debt: self.debt as int,
        }
    }
}

/// Whether a category was set on a staged row.
#[derive(Debug, Clone, Copy, PartialEq, Eq, Structural)]
pub struct SetCategoryResponse {
    pub ok: bool,
}

/// The settings of the application.
#[derive(Debug, Clone)]
pub struct AppSettings {
    pub theme: String,
    pub accounts: Option<String>,
}

/// The model of [`AppSettings`].
pub struct AppSettingsView {
    pub theme: Seq<char>,
    pub accounts: Option<Seq<char>>,
}

impl View for AppSettings {
    type V = AppSettingsView;

    open spec fn view(&self) -> AppSettingsView {
        AppSettingsView { theme: self.theme@, accounts: text_option(self.accounts) }
    }
}

/// A spending cap on one category, in hundredths.
#[derive(Debug, Clone)]
pub struct BudgetConfig {
    pub category: String,
    pub cap: u64,
}

/// The model of a [`BudgetConfig`].
pub struct BudgetConfigView {
    pub category: Seq<char>,
    pub cap: int,
}

impl View for BudgetConfig {
    type V = BudgetConfigView;

    open spec fn view(&self) -> BudgetConfigView {
        BudgetConfigView { category: self.category@, cap: self.cap as int }
    }
}

impl BudgetConfig {
    /// A copy of this budget.
    pub fn duplicate(&self) -> (r: Self)
        ensures
            r@ == self@,
    {
        BudgetConfig { category: self.category.clone(), cap: self.cap }
    }
}

} // verus!
