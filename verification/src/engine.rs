//! The engine: the inbox in which imported rows wait for a category, the ledger
//! into which they are committed, and the memory that learns from both.
//!
//! The engine holds its state in memory and changes it only as a whole: an
//! operation either does all of its work or leaves the state as it was.
//! Writing the state through to a store is the caller's business.

use vstd::prelude::*;
use crate::categorization::{
    learned, suggestion, tokenize_spec, Bindings, CategorizationMemory, TokenBinding,
};
use crate::csv_import::{
    csv_header, csv_records, normalized, parse_csv, rows_view, ImportError, ParsedRow,
    ParsedRowView,
};
use crate::dto::{
    clone_text_option, BudgetConfig, BudgetConfigView, FlowKind, InboxItem,
    InboxItemView, LedgerTransaction, LedgerTransactionView, NetWorthPoint, SetCategoryResponse,
    SummaryResponse,
};
use crate::networth::{curve, net_worth_curve, points_view};
use crate::settings::{lemma_with_budget_distinct, set_budget, with_budget};
use crate::sorting::{is_sorted_order, keys_view, sorted_order, SortKey, SortKeyView};
use crate::summary::{
    budgets_view, distinct_categories, is_summary, ledger_view, monthly_summary,
};
use crate::text::{chars_of, texts};

verus! {

/// The models of a sequence of inbox items.
pub open spec fn items_view(items: Seq<InboxItem>) -> Seq<InboxItemView> {
    items.map_values(|item: InboxItem| item@)
}

/// Whether no two items have one id.
pub open spec fn distinct_ids(inbox: Seq<InboxItemView>) -> bool {
    forall|i: int, j: int|
        0 <= i < j < inbox.len() ==> (#[trigger] inbox[i]).temp_id != (#[trigger] inbox[j]).temp_id
}

/// Whether every item has the flow that its amount's sign gives.
pub open spec fn all_consistent(inbox: Seq<InboxItemView>) -> bool {
    forall|i: int| 0 <= i < inbox.len() ==> (#[trigger] inbox[i]).consistent()
}

/// The first position at or after `from` of the item with the id `id`.
pub open spec fn position_of_id(inbox: Seq<InboxItemView>, id: Seq<char>, from: int) -> Option<int>
    decreases inbox.len() - from,
{
    if from < 0 || from >= inbox.len() {
        None
    } else if inbox[from].temp_id == id {
        Some(from)
    } else {
        position_of_id(inbox, id, from + 1)
    }
}

/// The inbox after `item` was staged: it takes the place of the item with
/// its id, or the last place if there is no such item.
pub open spec fn upsert(inbox: Seq<InboxItemView>, item: InboxItemView) -> Seq<InboxItemView> {
    match position_of_id(inbox, item.temp_id, 0) {
        Some(i) => inbox.update(i, item),
        None => inbox.push(item),
    }
}

/// The inbox after every item of `items` was staged, in order.
pub open spec fn upsert_all(inbox: Seq<InboxItemView>, items: Seq<InboxItemView>) -> Seq<
    InboxItemView,
>
    decreases items.len(),
{
    if items.len() == 0 {
        inbox
    } else {
        upsert(upsert_all(inbox, items.drop_last()), items.last())
    }
}

/// The item that a candidate is staged as: under the id `id`, with the flow
/// that its amount's sign gives and the category that the memory suggests
/// for its description.
pub open spec fn staged_item(row: ParsedRowView, id: Seq<char>, memory: Bindings) -> InboxItemView {
    InboxItemView {
        temp_id: id,
        date: row.date,
        description: row.description,
        amount: row.amount,
        flow: FlowKind::of(row.amount),
        suggested_category: suggestion(memory, tokenize_spec(row.description)),
    }
}

/// The items that candidates are staged as, each under the id at its
/// position.
pub open spec fn staged_items(
    rows: Seq<ParsedRowView>,
    ids: Seq<Seq<char>>,
    memory: Bindings,
) -> Seq<InboxItemView> {
    Seq::new(rows.len(), |i: int| staged_item(rows[i], ids[i], memory))
}

/// An item with the flow that its amount's sign gives.
pub open spec fn with_sign_flow(item: InboxItemView) -> InboxItemView {
    InboxItemView { flow: FlowKind::of(item.amount), ..item }
}

/// A ledger row with the flow that its amount's sign gives.
pub open spec fn row_with_sign_flow(row: LedgerTransactionView) -> LedgerTransactionView {
    LedgerTransactionView { flow: FlowKind::of(row.amount), ..row }
}

/// The largest id of a list of ledger rows; 0 for an empty list.
pub open spec fn largest_id(rows: Seq<LedgerTransactionView>) -> int
    decreases rows.len(),
{
    if rows.len() == 0 {
        0
    } else if rows.last().id > largest_id(rows.drop_last()) {
        rows.last().id
    } else {
        largest_id(rows.drop_last())
    }
}

/// The budgets that a list of stored budgets amounts to: of two budgets for
/// one category the later cap counts.
pub open spec fn budget_table(rows: Seq<BudgetConfigView>) -> Seq<BudgetConfigView>
    decreases rows.len(),
{
    if rows.len() == 0 {
        Seq::empty()
    } else {
        with_budget(budget_table(rows.drop_last()), rows.last().category, rows.last().cap)
    }
}

/// Where `position_of_id` finds an item, the item has the id; where it finds
/// none, no item at or after `from` has it.
pub proof fn lemma_position_of_id(inbox: Seq<InboxItemView>, id: Seq<char>, from: int)
    requires
        0 <= from,
    ensures
        match position_of_id(inbox, id, from) {
            Some(i) => from <= i < inbox.len() && inbox[i].temp_id == id,
            None => forall|i: int| from <= i < inbox.len() ==> (#[trigger] inbox[i]).temp_id != id,
        },
    decreases inbox.len() - from,
{
    if from < inbox.len() && inbox[from].temp_id != id {
        lemma_position_of_id(inbox, id, from + 1);
    }
}

/// Staging an item puts it in the place of the item that had its id, or at
/// the end if no item had it; the inbox grows by at most that one item, and
/// every other item stays where and what it was.
pub proof fn lemma_upsert_in_place(inbox: Seq<InboxItemView>, item: InboxItemView)
    requires
        distinct_ids(inbox),
    ensures
        match position_of_id(inbox, item.temp_id, 0) {
            Some(p) => upsert(inbox, item).len() == inbox.len() && upsert(inbox, item)[p] == item,
            None => upsert(inbox, item).len() == inbox.len() + 1 && upsert(inbox, item).last()
                == item,
        },
        forall|i: int|
            0 <= i < inbox.len() && inbox[i].temp_id != item.temp_id ==> (#[trigger] upsert(
                inbox,
                item,
            )[i]) == inbox[i],
        position_of_id(upsert(inbox, item), item.temp_id, 0) is Some,
        upsert(inbox, item)[position_of_id(upsert(inbox, item), item.temp_id, 0)->Some_0] == item,
{
    lemma_position_of_id(inbox, item.temp_id, 0);
    let after = upsert(inbox, item);
    lemma_position_of_id(after, item.temp_id, 0);
    match position_of_id(inbox, item.temp_id, 0) {
        Some(p) => {
            assert(after[p].temp_id == item.temp_id);
            let q = position_of_id(after, item.temp_id, 0)->Some_0;
            if q != p {
                assert(after[q] == inbox[q]);
                if q < p {
                    assert(inbox[q].temp_id != inbox[p].temp_id);
                } else {
                    assert(inbox[p].temp_id != inbox[q].temp_id);
                }
            }
        },
        None => {
            assert(after[inbox.len() as int].temp_id == item.temp_id);
            let q = position_of_id(after, item.temp_id, 0)->Some_0;
            if q < inbox.len() {
                assert(after[q] == inbox[q]);
            }
        },
    }
}

/// Staging an item keeps the ids of the inbox distinct and its flows true to
/// the amounts.
pub proof fn lemma_upsert_valid(inbox: Seq<InboxItemView>, item: InboxItemView)
    requires
        distinct_ids(inbox),
        all_consistent(inbox),
        item.consistent(),
    ensures
        distinct_ids(upsert(inbox, item)),
        all_consistent(upsert(inbox, item)),
{
    lemma_position_of_id(inbox, item.temp_id, 0);
    let after = upsert(inbox, item);
    match position_of_id(inbox, item.temp_id, 0) {
        Some(p) => {
            assert forall|i: int, j: int| 0 <= i < j < after.len() implies (
            #[trigger] after[i]).temp_id != (#[trigger] after[j]).temp_id by {
                assert(after[i].temp_id == inbox[i].temp_id);
                assert(after[j].temp_id == inbox[j].temp_id);
            }
            assert forall|i: int| 0 <= i < after.len() implies (#[trigger] after[i]).consistent() by {
                if i != p {
                    assert(after[i] == inbox[i]);
                }
            }
        },
        None => {
            assert forall|i: int, j: int| 0 <= i < j < after.len() implies (
            #[trigger] after[i]).temp_id != (#[trigger] after[j]).temp_id by {
                if j < inbox.len() {
                    assert(after[i] == inbox[i] && after[j] == inbox[j]);
                } else {
                    assert(after[i] == inbox[i]);
                }
            }
            assert forall|i: int| 0 <= i < after.len() implies (#[trigger] after[i]).consistent() by {
                if i < inbox.len() {
                    assert(after[i] == inbox[i]);
                }
            }
        },
    }
}

/// Why an operation of the engine failed.
#[derive(Debug, Clone, Copy, PartialEq, Eq, Structural)]
pub enum CoreError {
    /// The ledger has no ids left for the rows to commit.
    LedgerFull,
    /// The clock shows a month outside the years 1 to 9999.
    ClockOutOfRange,
}

impl CoreError {
    /// The failure in words.
    pub fn message(&self) -> (text: String)
        ensures
            text@ == match self {
                CoreError::LedgerFull => "Ledger has no ids left"@,
                CoreError::ClockOutOfRange => "Clock shows a month out of range"@,
            },
    {
        match self {
            CoreError::LedgerFull => "Ledger has no ids left".to_owned(),
            CoreError::ClockOutOfRange => "Clock shows a month out of range".to_owned(),
        }
    }
}

/// `uuid::Uuid::new_v4`, written out as text. Nothing is promised of the
/// result: it is drawn at random.
#[verifier::external_body]
fn fresh_temp_id() -> (id: String) {
    uuid::Uuid::new_v4().to_string()
}

/// `time::OffsetDateTime::now_utc`, of which the year and the number of the
/// month are handed on. Nothing is promised of them: they are what the clock
/// shows.
#[verifier::external_body]
fn current_year_and_month() -> (now: (i32, u8)) {
    let today = time::OffsetDateTime::now_utc().date();
    (today.year(), u8::from(today.month()))
}

/// Whether `after` is `before` with the candidates `rows` staged under the
/// ids `ids`, and `items` are the items that they were staged as.
pub open spec fn stages(
    before: ArthaCoreView,
    after: ArthaCoreView,
    rows: Seq<ParsedRowView>,
    ids: Seq<Seq<char>>,
    items: Seq<InboxItemView>,
) -> bool {
    &&& ids.len() == rows.len()
    &&& items == staged_items(rows, ids, before.memory)
    &&& after == (ArthaCoreView { inbox: upsert_all(before.inbox, items), ..before })
}

/// Whether `after` is `before` with the candidates `rows` staged under some
/// ids.
pub open spec fn stages_somehow(
    before: ArthaCoreView,
    after: ArthaCoreView,
    rows: Seq<ParsedRowView>,
    items: Seq<InboxItemView>,
) -> bool {
    exists|ids: Seq<Seq<char>>| stages(before, after, rows, ids, items)
}

/// An item with the category `category`.
pub open spec fn with_category(item: InboxItemView, category: Seq<char>) -> InboxItemView {
    InboxItemView { suggested_category: Some(category), ..item }
}

/// The ledger row that a staged item is committed as under the id `id`.
pub open spec fn committed_row(item: InboxItemView, id: int) -> LedgerTransactionView {
    LedgerTransactionView {
        id,
        date: item.date,
        description: item.description,
        amount: item.amount,
        flow: item.flow,
        category: item.suggested_category,
    }
}

/// The ledger rows that an inbox is committed as: one for every item, in
/// order, with ids that count up from `first_id`.
pub open spec fn committed_rows(inbox: Seq<InboxItemView>, first_id: int) -> Seq<
    LedgerTransactionView,
> {
    Seq::new(inbox.len(), |i: int| committed_row(inbox[i], first_id + i))
}

/// The memory after a commit: every item that has a category reinforced it
/// with its description, in the order of the items.
pub open spec fn reinforced_by(memory: Bindings, inbox: Seq<InboxItemView>) -> Bindings
    decreases inbox.len(),
{
    if inbox.len() == 0 {
        memory
    } else {
        let before = reinforced_by(memory, inbox.drop_last());
        match inbox.last().suggested_category {
            Some(category) => learned(
                before,
                tokenize_spec(inbox.last().description),
                category,
            ),
            None => before,
        }
    }
}

/// The state after a commit of everything that is staged.
pub open spec fn committed(state: ArthaCoreView) -> ArthaCoreView {
    ArthaCoreView {
        inbox: Seq::empty(),
        ledger: state.ledger + committed_rows(state.inbox, state.last_id + 1),
        last_id: state.last_id + state.inbox.len(),
        memory: reinforced_by(state.memory, state.inbox),
        budgets: state.budgets,
    }
}

/// A commit moves the inbox to the ledger: afterwards the inbox is empty,
/// the ledger holds what it held before, in the same order, and after that
/// one row for every item that was staged, with the item's date,
/// description, amount and category.
pub proof fn lemma_commit_round_trip(state: ArthaCoreView)
    ensures
        committed(state).inbox.len() == 0,
        committed(state).ledger.len() == state.ledger.len() + state.inbox.len(),
        committed(state).ledger.take(state.ledger.len() as int) == state.ledger,
        forall|i: int|
            0 <= i < state.inbox.len() ==> {
                let row = #[trigger] committed(state).ledger[state.ledger.len() + i];
                &&& row.date == state.inbox[i].date
                &&& row.description == state.inbox[i].description
                &&& row.amount == state.inbox[i].amount
                &&& row.category == state.inbox[i].suggested_category
                &&& row.flow == state.inbox[i].flow
                &&& row.id == state.last_id + 1 + i
            },
{
}

/// The keys by which the inbox is listed: the dates of its items.
pub open spec fn date_keys(inbox: Seq<InboxItemView>) -> Seq<SortKeyView> {
    Seq::new(inbox.len(), |i: int| SortKeyView { rank: 0, name: inbox[i].date })
}

/// Whether `out` lists `inbox` in the order of `order`.
pub open spec fn items_in_order(
    inbox: Seq<InboxItemView>,
    order: Seq<usize>,
    out: Seq<InboxItemView>,
) -> bool {
    &&& is_sorted_order(date_keys(inbox), true, order)
    &&& out.len() == inbox.len()
    &&& forall|i: int| 0 <= i < out.len() ==> (#[trigger] out[i]) == inbox[order[i] as int]
}

/// Whether `out` lists `inbox` with the latest date first, items of one date
/// in the order in which they are staged.
pub open spec fn is_inbox_listing(inbox: Seq<InboxItemView>, out: Seq<InboxItemView>) -> bool {
    exists|order: Seq<usize>| items_in_order(inbox, order, out)
}

/// The number of a month, counted from January of the year 0.
pub open spec fn month_number(year: int, month: int) -> int {
    year * 12 + month - 1
}

/// Whether the clock's year and month name a month of the years 1 to 9999.
pub open spec fn clock_in_range(year: int, month: int) -> bool {
    1 <= year <= 9999 && 1 <= month <= 12
}

/// Whether `points` is the curve that ends at some month of the years 1 to
/// 9999.
pub open spec fn is_curve_at_some_month(
    ledger: Seq<LedgerTransactionView>,
    points: Seq<crate::dto::NetWorthPointView>,
) -> bool {
    exists|year: int, month: int|
        clock_in_range(year, month) && points == curve(
            ledger,
            #[trigger] month_number(year, month),
        )
}

/// The state of the engine.
#[derive(Debug, Clone)]
pub struct ArthaCore {
    inbox: Vec<InboxItem>,
    ledger: Vec<LedgerTransaction>,
    last_id: u64,
    memory: CategorizationMemory,
    budgets: Vec<BudgetConfig>,
}

/// The model of the engine's state.
pub struct ArthaCoreView {
    /// The staged rows, in the order in which their ids were first staged.
    pub inbox: Seq<InboxItemView>,
    /// The committed rows, in the order in which they were committed.
    pub ledger: Seq<LedgerTransactionView>,
    /// The largest id that the ledger has used.
    pub last_id: int,
    /// What the categorization memory holds.
    pub memory: Bindings,
    /// The configured budgets.
    pub budgets: Seq<BudgetConfigView>,
}

impl ArthaCoreView {
    /// What holds of every state that the engine reaches: staged ids are
    /// unique, every row's flow is the one that its amount's sign gives, no
    /// ledger id lies beyond the last one used, and no category has two
    /// budgets.
    pub open spec fn valid(self) -> bool {
        &&& distinct_ids(self.inbox)
        &&& all_consistent(self.inbox)
        &&& forall|i: int|
            0 <= i < self.ledger.len() ==> (#[trigger] self.ledger[i]).consistent() && 0
                <= self.ledger[i].id <= self.last_id
        &&& 0 <= self.last_id <= u64::MAX
        &&& distinct_categories(self.budgets)
    }
}

impl View for ArthaCore {
    type V = ArthaCoreView;

    closed spec fn view(&self) -> ArthaCoreView {
        ArthaCoreView {
            inbox: items_view(self.inbox@),
            ledger: ledger_view(self.ledger@),
            last_id: self.last_id as int,
            memory: self.memory@,
            budgets: budgets_view(self.budgets@),
        }
    }
}

/// For every row of a valid state, staged or committed: the flow is a debit
/// exactly when the amount is negative, and a credit exactly when it is zero
/// or more.
pub proof fn lemma_amount_sign_law(state: ArthaCoreView)
    requires
        state.valid(),
    ensures
        forall|i: int|
            0 <= i < state.inbox.len() ==> ((#[trigger] state.inbox[i]).flow == FlowKind::Debit
                <==> state.inbox[i].amount < 0) && (state.inbox[i].flow == FlowKind::Credit
                <==> state.inbox[i].amount >= 0),
        forall|i: int|
            0 <= i < state.ledger.len() ==> ((#[trigger] state.ledger[i]).flow == FlowKind::Debit
                <==> state.ledger[i].amount < 0) && (state.ledger[i].flow == FlowKind::Credit
                <==> state.ledger[i].amount >= 0),
{
    assert forall|i: int| 0 <= i < state.inbox.len() implies ((#[trigger] state.inbox[i]).flow
        == FlowKind::Debit <==> state.inbox[i].amount < 0) && (state.inbox[i].flow
        == FlowKind::Credit <==> state.inbox[i].amount >= 0) by {
        assert(state.inbox[i].consistent());
    }
    assert forall|i: int| 0 <= i < state.ledger.len() implies ((#[trigger] state.ledger[i]).flow
        == FlowKind::Debit <==> state.ledger[i].amount < 0) && (state.ledger[i].flow
        == FlowKind::Credit <==> state.ledger[i].amount >= 0) by {
        assert(state.ledger[i].consistent());
    }
}

impl ArthaCore {
    /// The invariant of the engine.
    pub closed spec fn wf(self) -> bool {
        self.memory.wf() && self@.valid()
    }

    /// The state of a well-formed engine is valid.
    pub proof fn lemma_wf_valid(self)
        requires
            self.wf(),
        ensures
            self@.valid(),
    {
    }

    /// Starts the engine with an empty inbox, an empty ledger and no
    /// budgets. `tokens` is what the store holds of the categorization
    /// memory, or `None` if it could not be read: the engine then starts
    /// with an empty memory.
    pub fn bootstrap(tokens: Option<Vec<TokenBinding>>) -> (core: Self)
        ensures
            core.wf(),
            core@ == (ArthaCoreView {
                inbox: Seq::empty(),
                ledger: Seq::empty(),
                last_id: 0,
                memory: match tokens {
                    Some(rows) => crate::categorization::bindings_of(rows@),
                    None => Map::empty(),
                },
                budgets: Seq::empty(),
            }),
    {
        let memory = match tokens {
            Some(rows) => CategorizationMemory::load(rows),
            None => CategorizationMemory::new(),
        };
        let core = ArthaCore {
            inbox: Vec::new(),
            ledger: Vec::new(),
            last_id: 0,
            memory,
            budgets: Vec::new(),
        };
        assert(core@.inbox =~= Seq::<InboxItemView>::empty());
        assert(core@.ledger =~= Seq::<LedgerTransactionView>::empty());
        assert(core@.budgets =~= Seq::<BudgetConfigView>::empty());
        core
    }

    /// Where the item with the id `id` is staged, if it is.
    fn find_item(&self, id: &String) -> (at: Option<usize>)
        ensures
            match at {
                Some(i) => position_of_id(self@.inbox, id@, 0) == Some(i as int) && i
                    < self.inbox@.len(),
                None => position_of_id(self@.inbox, id@, 0) is None,
            },
    {
        let mut i: usize = 0;
        while i < self.inbox.len()
            invariant
                i <= self.inbox@.len(),
                position_of_id(self@.inbox, id@, 0) == position_of_id(self@.inbox, id@, i as int),
            decreases self.inbox.len() - i,
        {
            assert(self@.inbox[i as int].temp_id == self.inbox@[i as int].temp_id@);
            if self.inbox[i].temp_id == *id {
                return Some(i);
            }
            i += 1;
        }
        None
    }

    /// Stages one item.
    fn upsert_item(&mut self, item: InboxItem)
        requires
            old(self).wf(),
            item@.consistent(),
        ensures
            final(self).wf(),
            final(self)@ == (ArthaCoreView { inbox: upsert(old(self)@.inbox, item@), ..old(self)@ }),
    {
        proof {
            lemma_upsert_valid(self@.inbox, item@);
        }
        let ghost before = items_view(self.inbox@);
        match self.find_item(&item.temp_id) {
            Some(i) => {
                self.inbox.set(i, item);
                assert(items_view(self.inbox@) == before.update(i as int, item@));
            },
            None => {
                self.inbox.push(item);
                assert(items_view(self.inbox@) == before.push(item@));
            },
        }
    }

    /// Stages every item of `items`, in order.
    fn upsert_items(&mut self, items: &Vec<InboxItem>)
        requires
            old(self).wf(),
            all_consistent(items_view(items@)),
        ensures
            final(self).wf(),
            final(self)@ == (ArthaCoreView {
                inbox: upsert_all(old(self)@.inbox, items_view(items@)),
                ..old(self)@
            }),
    {
        let ghost all = items_view(items@);
        let mut k: usize = 0;
        assert(all.take(0) == Seq::<InboxItemView>::empty());
        while k < items.len()
            invariant
                k <= items.len(),
                all == items_view(items@),
                all_consistent(all),
                self.wf(),
                self@ == (ArthaCoreView {
                    inbox: upsert_all(old(self)@.inbox, all.take(k as int)),
                    ..old(self)@
                }),
            decreases items.len() - k,
        {
            assert(all.take(k + 1).drop_last() == all.take(k as int));
            assert(all.take(k + 1).last() == items@[k as int]@);
            assert(all[k as int].consistent());
            self.upsert_item(items[k].duplicate());
            k += 1;
        }
        assert(all.take(items.len() as int) == all);
    }

    /// Stages candidates under the given ids, one id a candidate.
    ///
    /// Each candidate becomes an item with the flow that its amount's sign
    /// gives and the category that the memory suggests for its description.
    /// An item whose id is already staged takes the place of the staged
    /// item; any other is added at the end. The memory learns nothing.
    /// Returns the items as they were staged.
    pub fn stage_rows(&mut self, rows: &Vec<ParsedRow>, ids: &Vec<String>) -> (items: Vec<InboxItem>)
        requires
            old(self).wf(),
            ids@.len() == rows@.len(),
        ensures
            final(self).wf(),
            items_view(items@) == staged_items(rows_view(rows@), texts(ids@), old(self)@.memory),
            final(self)@ == (ArthaCoreView {
                inbox: upsert_all(old(self)@.inbox, items_view(items@)),
                ..old(self)@
            }),
    {
        let ghost target = staged_items(rows_view(rows@), texts(ids@), self@.memory);
        let mut items: Vec<InboxItem> = Vec::new();
        let mut k: usize = 0;
        while k < rows.len()
            invariant
                k <= rows.len(),
                ids@.len() == rows@.len(),
                self.wf(),
                self@ == old(self)@,
                target == staged_items(rows_view(rows@), texts(ids@), self@.memory),
                items_view(items@) == target.take(k as int),
                all_consistent(items_view(items@)),
            decreases rows.len() - k,
        {
            let row = &rows[k];
            assert(rows_view(rows@)[k as int] == row@);
            assert(texts(ids@)[k as int] == ids@[k as int]@);
            let item = InboxItem {
                temp_id: ids[k].clone(),
                date: row.date.clone(),
                description: row.description.clone(),
                amount: row.amount,
                flow: FlowKind::from_amount(row.amount),
                suggested_category: self.memory.suggest(row.description.as_str()),
            };
            assert(item@ == target[k as int]);
            let ghost before = items_view(items@);
            items.push(item);
            proof {
                let after = items_view(items@);
                assert(after == before.push(target[k as int]));
                assert(target.take(k + 1) == target.take(k as int).push(target[k as int]));
                assert forall|i: int| 0 <= i < after.len() implies (#[trigger] after[i]).consistent() by {
                    if i < k {
                        assert(after[i] == before[i]);
                    }
                }
            }
            k += 1;
        }
        assert(target.take(rows.len() as int) == target);
        self.upsert_items(&items);
        items
    }

    /// Puts back into the inbox the items that the store holds, in order.
    /// Each item gets the flow that its amount's sign gives; of two items
    /// with one id the later takes the place of the earlier.
    pub fn restore_inbox(&mut self, items: &Vec<InboxItem>)
        requires
            old(self).wf(),
        ensures
            final(self).wf(),
            final(self)@ == (ArthaCoreView {
                inbox: upsert_all(
                    old(self)@.inbox,
                    Seq::new(items@.len(), |i: int| with_sign_flow(items@[i]@)),
                ),
                ..old(self)@
            }),
    {
        let ghost target = Seq::new(items@.len(), |i: int| with_sign_flow(items@[i]@));
        let mut fixed: Vec<InboxItem> = Vec::new();
        let mut k: usize = 0;
        while k < items.len()
            invariant
                k <= items.len(),
                target == Seq::new(items@.len(), |i: int| with_sign_flow(items@[i]@)),
                items_view(fixed@) == target.take(k as int),
            decreases items.len() - k,
        {
            let item = &items[k];
            let copy = InboxItem {
                temp_id: item.temp_id.clone(),
                date: item.date.clone(),
                description: item.description.clone(),
                amount: item.amount,
                flow: FlowKind::from_amount(item.amount),
                suggested_category: clone_text_option(&item.suggested_category),
            };
            assert(copy@ == target[k as int]);
            let ghost before = items_view(fixed@);
            fixed.push(copy);
            assert(items_view(fixed@) == before.push(target[k as int]));
            assert(target.take(k + 1) == target.take(k as int).push(target[k as int]));
            k += 1;
        }
        assert(target.take(items.len() as int) == target);
        assert(all_consistent(items_view(fixed@)));
        self.upsert_items(&fixed);
    }

    /// Puts back into the ledger the rows that the store holds, after the
    /// rows that the ledger has. Each row gets the flow that its amount's
    /// sign gives; the last id used becomes the largest id seen.
    pub fn restore_ledger(&mut self, rows: &Vec<LedgerTransaction>)
        requires
            old(self).wf(),
        ensures
            final(self).wf(),
            final(self)@ == (ArthaCoreView {
                ledger: old(self)@.ledger + Seq::new(
                    rows@.len(),
                    |i: int| row_with_sign_flow(rows@[i]@),
                ),
                last_id: if largest_id(ledger_view(rows@)) > old(self)@.last_id {
                    largest_id(ledger_view(rows@))
                } else {
                    old(self)@.last_id
                },
                ..old(self)@
            }),
    {
        let ghost target = Seq::new(rows@.len(), |i: int| row_with_sign_flow(rows@[i]@));
        let ghost all = ledger_view(rows@);
        let ghost start = self@.ledger;
        let ghost first = self@.last_id;
        let mut k: usize = 0;
        assert(all.take(0) == Seq::<LedgerTransactionView>::empty());
        assert(start + target.take(0) == start);
        while k < rows.len()
            invariant
                k <= rows.len(),
                target == Seq::new(rows@.len(), |i: int| row_with_sign_flow(rows@[i]@)),
                all == ledger_view(rows@),
                start == old(self)@.ledger,
                first == old(self)@.last_id,
                self.wf(),
                self@ == (ArthaCoreView {
                    ledger: start + target.take(k as int),
                    last_id: if largest_id(all.take(k as int)) > first {
                        largest_id(all.take(k as int))
                    } else {
                        first
                    },
                    ..old(self)@
                }),
            decreases rows.len() - k,
        {
            assert(all.take(k + 1).drop_last() == all.take(k as int));
            assert(all.take(k + 1).last() == rows@[k as int]@);
            let row = &rows[k];
            let copy = LedgerTransaction {
                id: row.id,
                date: row.date.clone(),
                description: row.description.clone(),
                amount: row.amount,
                flow: FlowKind::from_amount(row.amount),
                category: clone_text_option(&row.category),
            };
            assert(copy@ == target[k as int]);
            let ghost before = ledger_view(self.ledger@);
            self.ledger.push(copy);
            if row.id > self.last_id {
                self.last_id = row.id;
            }
            proof {
                assert(ledger_view(self.ledger@) == before.push(target[k as int]));
                assert(target.take(k + 1) == target.take(k as int).push(target[k as int]));
                assert(start + target.take(k + 1) == (start + target.take(k as int)).push(
                    target[k as int],
                ));
                let after = ledger_view(self.ledger@);
                assert forall|i: int| 0 <= i < after.len() implies (#[trigger] after[i]).consistent()
                    && 0 <= after[i].id <= self.last_id by {
                    if i < before.len() {
                        assert(after[i] == before[i]);
                    }
                }
            }
            k += 1;
        }
        assert(all.take(rows.len() as int) == all);
        assert(target.take(rows.len() as int) == target);
    }

    /// Replaces the budgets by those that the store holds. Of two budgets
    /// for one category the later cap counts.
    pub fn restore_budgets(&mut self, budgets: &Vec<BudgetConfig>)
        requires
            old(self).wf(),
        ensures
            final(self).wf(),
            final(self)@ == (ArthaCoreView {
                budgets: budget_table(budgets_view(budgets@)),
                ..old(self)@
            }),
    {
        let ghost all = budgets_view(budgets@);
        let mut table: Vec<BudgetConfig> = Vec::new();
        let mut k: usize = 0;
        assert(all.take(0) == Seq::<BudgetConfigView>::empty());
        assert(budgets_view(table@) == Seq::<BudgetConfigView>::empty());
        while k < budgets.len()
            invariant
                k <= budgets.len(),
                all == budgets_view(budgets@),
                budgets_view(table@) == budget_table(all.take(k as int)),
                distinct_categories(budgets_view(table@)),
            decreases budgets.len() - k,
        {
            assert(all.take(k + 1).drop_last() == all.take(k as int));
            assert(all.take(k + 1).last() == budgets@[k as int]@);
            proof {
                lemma_with_budget_distinct(
                    budgets_view(table@),
                    budgets@[k as int].category@,
                    budgets@[k as int].cap as int,
                );
            }
            set_budget(&mut table, budgets[k].category.as_str(), budgets[k].cap);
            k += 1;
        }
        assert(all.take(budgets.len() as int) == all);
        self.budgets = table;
    }

    /// Sets the cap of the budget for `category`, adding the budget if there
    /// is none.
    pub fn set_budget(&mut self, category: &str, cap: u64)
        requires
            old(self).wf(),
        ensures
            final(self).wf(),
            final(self)@ == (ArthaCoreView {
                budgets: with_budget(old(self)@.budgets, category@, cap as int),
                ..old(self)@
            }),
    {
        proof {
            lemma_with_budget_distinct(self@.budgets, category@, cap as int);
        }
        let mut table: Vec<BudgetConfig> = Vec::new();
        std::mem::swap(&mut table, &mut self.budgets);
        set_budget(&mut table, category, cap);
        self.budgets = table;
    }

    /// The staged items, in the order in which their ids were first staged.
    pub fn staged(&self) -> (items: Vec<InboxItem>)
        ensures
            items_view(items@) == self@.inbox,
    {
        let mut items: Vec<InboxItem> = Vec::new();
        let mut k: usize = 0;
        while k < self.inbox.len()
            invariant
                k <= self.inbox@.len(),
                items_view(items@) == self@.inbox.take(k as int),
            decreases self.inbox.len() - k,
        {
            let ghost before = items_view(items@);
            items.push(self.inbox[k].duplicate());
            assert(items_view(items@) == before.push(self@.inbox[k as int]));
            assert(self@.inbox.take(k + 1) == self@.inbox.take(k as int).push(
                self@.inbox[k as int],
            ));
            k += 1;
        }
        assert(self@.inbox.take(self.inbox@.len() as int) == self@.inbox);
        items
    }

    /// The committed rows, in the order in which they were committed.
    pub fn ledger(&self) -> (rows: Vec<LedgerTransaction>)
        ensures
            ledger_view(rows@) == self@.ledger,
    {
        let mut rows: Vec<LedgerTransaction> = Vec::new();
        let mut k: usize = 0;
        while k < self.ledger.len()
            invariant
                k <= self.ledger@.len(),
                ledger_view(rows@) == self@.ledger.take(k as int),
            decreases self.ledger.len() - k,
        {
            let ghost before = ledger_view(rows@);
            rows.push(self.ledger[k].duplicate());
            assert(ledger_view(rows@) == before.push(self@.ledger[k as int]));
            assert(self@.ledger.take(k + 1) == self@.ledger.take(k as int).push(
                self@.ledger[k as int],
            ));
            k += 1;
        }
        assert(self@.ledger.take(self.ledger@.len() as int) == self@.ledger);
        rows
    }

    /// The categorization memory.
    pub fn memory(&self) -> (memory: &CategorizationMemory)
        requires
            self.wf(),
        ensures
            memory.wf(),
            memory@ == self@.memory,
    {
        &self.memory
    }
    /// Imports the bytes of a bank export into the inbox.
    ///
    /// The export is normalized into candidates, and each candidate is
    /// staged under a fresh id. If the import fails, nothing is staged.
    /// Returns the items as they were staged.
    pub fn import_csv(&mut self, bytes: &[u8]) -> (r: Result<Vec<InboxItem>, ImportError>)
        requires
            old(self).wf(),
        ensures
            final(self).wf(),
            match normalized(csv_header(bytes@), csv_records(bytes@)) {
                Err(e) => r matches Err(failure) && failure == e && final(self)@ == old(self)@,
                Ok(rows) => r matches Ok(items) && stages_somehow(
                    old(self)@,
                    final(self)@,
                    rows,
                    items_view(items@),
                ),
            },
    {
        let rows = match parse_csv(bytes) {
            Ok(rows) => rows,
            Err(e) => {
                return Err(e);
            },
        };
        let mut ids: Vec<String> = Vec::new();
        while ids.len() < rows.len()
            invariant
                ids@.len() <= rows@.len(),
            decreases rows@.len() - ids@.len(),
        {
            ids.push(fresh_temp_id());
        }
        let items = self.stage_rows(&rows, &ids);
        assert(stages(
            old(self)@,
            self@,
            rows_view(rows@),
            texts(ids@),
            items_view(items@),
        ));
        Ok(items)
    }

    /// The staged items with the latest date first; items of one date stay
    /// in the order in which they are staged.
    pub fn get_inbox(&self) -> (items: Vec<InboxItem>)
        ensures
            is_inbox_listing(self@.inbox, items_view(items@)),
    {
        let ghost inbox = self@.inbox;
        let mut keys: Vec<SortKey> = Vec::new();
        let mut k: usize = 0;
        while k < self.inbox.len()
            invariant
                k <= self.inbox@.len(),
                inbox == self@.inbox,
                keys_view(keys@) == date_keys(inbox).take(k as int),
            decreases self.inbox.len() - k,
        {
            let key = SortKey { rank: 0, name: chars_of(self.inbox[k].date.as_str()) };
            assert(inbox[k as int].date == self.inbox@[k as int].date@);
            let ghost before = keys_view(keys@);
            keys.push(key);
            assert(keys_view(keys@) == before.push(key@));
            assert(date_keys(inbox).take(k + 1) == date_keys(inbox).take(k as int).push(key@));
            k += 1;
        }
        assert(date_keys(inbox).take(self.inbox@.len() as int) == date_keys(inbox));
        let order = sorted_order(&keys, true);
        let mut items: Vec<InboxItem> = Vec::new();
        let mut i: usize = 0;
        while i < order.len()
            invariant
                i <= order.len(),
                inbox == self@.inbox,
                is_sorted_order(date_keys(inbox), true, order@),
                items@.len() == i,
                forall|t: int|
                    0 <= t < i ==> (#[trigger] items_view(items@)[t]) == inbox[order@[t] as int],
            decreases order.len() - i,
        {
            let at = order[i];
            assert(order@[i as int] < date_keys(inbox).len());
            assert(inbox[at as int] == self.inbox@[at as int]@);
            let ghost before = items_view(items@);
            items.push(self.inbox[at].duplicate());
            assert forall|t: int| 0 <= t < i + 1 implies (#[trigger] items_view(items@)[t])
                == inbox[order@[t] as int] by {
                if t < i {
                    assert(items_view(items@)[t] == before[t]);
                }
            }
            i += 1;
        }
        assert(items_in_order(inbox, order@, items_view(items@)));
        items
    }

    /// Files the staged item with the id `temp_id` under `category`.
    ///
    /// If there is such an item, its category is overwritten, and the memory
    /// learns at once that the item's description goes with the category.
    /// If there is none, nothing changes, and the answer says so.
    pub fn set_inbox_category(&mut self, temp_id: &str, category: &str) -> (r: SetCategoryResponse)
        requires
            old(self).wf(),
        ensures
            final(self).wf(),
            match position_of_id(old(self)@.inbox, temp_id@, 0) {
                None => !r.ok && final(self)@ == old(self)@,
                Some(i) => r.ok && final(self)@ == (ArthaCoreView {
                    inbox: old(self)@.inbox.update(
                        i,
                        with_category(old(self)@.inbox[i], category@),
                    ),
                    memory: learned(
                        old(self)@.memory,
                        tokenize_spec(old(self)@.inbox[i].description),
                        category@,
                    ),
                    ..old(self)@
                }),
            },
    {
        let id = temp_id.to_owned();
        let at = match self.find_item(&id) {
            Some(i) => i,
            None => {
                return SetCategoryResponse { ok: false };
            },
        };
        let ghost before = items_view(self.inbox@);
        let item = &self.inbox[at];
        assert(before[at as int] == item@);
        let description = item.description.clone();
        let changed = InboxItem {
            temp_id: item.temp_id.clone(),
            date: item.date.clone(),
            description: item.description.clone(),
            amount: item.amount,
            flow: item.flow,
            suggested_category: Some(category.to_owned()),
        };
        assert(changed@ == with_category(before[at as int], category@));
        self.inbox.set(at, changed);
        self.memory.learn(description.as_str(), category);
        proof {
            let after = items_view(self.inbox@);
            assert(after == before.update(at as int, with_category(before[at as int], category@)));
            assert forall|i: int, j: int| 0 <= i < j < after.len() implies (
            #[trigger] after[i]).temp_id != (#[trigger] after[j]).temp_id by {
                assert(after[i].temp_id == before[i].temp_id);
                assert(after[j].temp_id == before[j].temp_id);
            }
            assert forall|i: int| 0 <= i < after.len() implies (#[trigger] after[i]).consistent() by {
                assert(before[i].consistent());
            }
        }
        SetCategoryResponse { ok: true }
    }

    /// Commits everything that is staged.
    ///
    /// Every staged item becomes a row of the ledger, in order, with the
    /// category that it is staged with, and with the next free id. An item
    /// that has a category reinforces the memory with its description. The
    /// inbox is empty afterwards. Returns the number of rows committed.
    ///
    /// The commit fails as a whole, and changes nothing, if the ledger has
    /// not enough ids left.
    pub fn commit_inbox(&mut self) -> (r: Result<usize, CoreError>)
        requires
            old(self).wf(),
        ensures
            final(self).wf(),
            match r {
                Ok(count) => old(self)@.last_id + old(self)@.inbox.len() <= u64::MAX && count
                    == old(self)@.inbox.len() && final(self)@ == committed(old(self)@),
                Err(e) => old(self)@.last_id + old(self)@.inbox.len() > u64::MAX && e
                    == CoreError::LedgerFull && final(self)@ == old(self)@,
            },
    {
        let count = self.inbox.len();
        if count as u64 > u64::MAX - self.last_id {
            return Err(CoreError::LedgerFull);
        }
        let ghost start = self@;
        let ghost target = committed_rows(start.inbox, start.last_id + 1);
        let mut i: usize = 0;
        assert(start.inbox.take(0) == Seq::<InboxItemView>::empty());
        assert(start.ledger + target.take(0) == start.ledger);
        while i < count
            invariant
                i <= count,
                count == self.inbox@.len(),
                start == old(self)@,
                start.valid(),
                start.last_id + count <= u64::MAX,
                target == committed_rows(start.inbox, start.last_id + 1),
                self.memory.wf(),
                self@ == (ArthaCoreView {
                    ledger: start.ledger + target.take(i as int),
                    memory: reinforced_by(start.memory, start.inbox.take(i as int)),
                    ..start
                }),
            decreases count - i,
        {
            assert(start.inbox.take(i + 1).drop_last() == start.inbox.take(i as int));
            assert(start.inbox.take(i + 1).last() == start.inbox[i as int]);
            let item = &self.inbox[i];
            assert(start.inbox[i as int] == item@);
            let description = item.description.clone();
            let category = clone_text_option(&item.suggested_category);
            let row = LedgerTransaction {
                id: self.last_id + 1 + i as u64,
                date: item.date.clone(),
                description: item.description.clone(),
                amount: item.amount,
                flow: item.flow,
                category: clone_text_option(&item.suggested_category),
            };
            assert(row@ == target[i as int]);
            let ghost before = ledger_view(self.ledger@);
            self.ledger.push(row);
            assert(ledger_view(self.ledger@) == before.push(target[i as int]));
            assert(start.ledger + target.take(i + 1) == (start.ledger + target.take(i as int)).push(
                target[i as int],
            ));
            match category {
                Some(name) => {
                    self.memory.learn(description.as_str(), name.as_str());
                },
                None => {},
            }
            i += 1;
        }
        assert(start.inbox.take(count as int) == start.inbox);
        assert(target.take(count as int) == target);
        self.last_id = self.last_id + count as u64;
        self.inbox = Vec::new();
        proof {
            assert(items_view(self.inbox@) == Seq::<InboxItemView>::empty());
            let after = self@.ledger;
            assert forall|k: int| 0 <= k < after.len() implies (#[trigger] after[k]).consistent()
                && 0 <= after[k].id <= self@.last_id by {
                if k < start.ledger.len() {
                    assert(after[k] == start.ledger[k]);
                } else {
                    assert(after[k] == target[k - start.ledger.len()]);
                    assert(start.inbox[k - start.ledger.len()].consistent());
                }
            }
        }
        Ok(count)
    }

    /// The summary of a month: what was spent in all, what was spent by
    /// category, and every budget against what was spent in its category.
    pub fn get_summary(&self, month: &str) -> (summary: SummaryResponse)
        requires
            self.wf(),
        ensures
            is_summary(self@.ledger, self@.budgets, month@, summary@),
    {
        monthly_summary(&self.ledger, &self.budgets, month)
    }

    /// The net-worth curve that ends at the month that the clock's `year`
    /// and `month` name: twelve points, the oldest first. Fails exactly when
    /// these do not name a month of the years 1 to 9999.
    pub fn networth_curve_at(&self, year: i32, month: u8) -> (r: Result<
        Vec<NetWorthPoint>,
        CoreError,
    >)
        ensures
            match r {
                Ok(points) => clock_in_range(year as int, month as int) && points_view(points@)
                    == curve(self@.ledger, month_number(year as int, month as int)),
                Err(e) => !clock_in_range(year as int, month as int) && e
                    == CoreError::ClockOutOfRange,
            },
    {
        if year < 1 || year > 9999 || month < 1 || month > 12 {
            return Err(CoreError::ClockOutOfRange);
        }
        Ok(net_worth_curve(&self.ledger, year as u16, month))
    }

    /// The net-worth curve that ends at the current month.
    pub fn get_networth_curve(&self) -> (r: Result<Vec<NetWorthPoint>, CoreError>)
        ensures
            match r {
                Ok(points) => is_curve_at_some_month(self@.ledger, points_view(points@)),
                Err(e) => e == CoreError::ClockOutOfRange,
            },
    {
        let (year, month) = current_year_and_month();
        let r = self.networth_curve_at(year, month);
        proof {
            if r is Ok {
                assert(clock_in_range(year as int, month as int));
                assert(points_view(r->Ok_0@) == curve(
                    self@.ledger,
                    month_number(year as int, month as int),
                ));
            }
        }
        r
    }
}

} // verus!
