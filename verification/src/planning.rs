//! The forms and filters of the pages that track spending and plans:
//! transactions, monthly budgets, savings goals and holidays. Amounts and
//! dates are carried as the user typed them.

use vstd::prelude::*;

verus! {

// ── Transactions ──

/// Which transactions are listed: a period, a category, a type, a page, a
/// search text, and the notice to show.
pub struct TxnFilter {
    pub from: Option<String>,
    pub to: Option<String>,
    pub category: Option<String>,
    pub txn_type: Option<String>,
    pub page: Option<i64>,
    pub search: Option<String>,
    pub flash: Option<String>,
    pub flash_type: Option<String>,
}

/// A new transaction.
pub struct NewTxnForm {
    pub txn_date: String,
    pub amount: String,
    pub category: String,
    pub description: String,
    pub txn_type: String,
}

/// The edited fields of a transaction.
pub struct EditTransactionForm {
    pub txn_date: String,
    pub txn_type: String,
    pub category: String,
    pub description: String,
    pub amount: String,
}

// ── Budgets ──

/// The month whose budgets are listed, and the notice to show.
pub struct BudgetFilter {
    pub month: Option<String>,
    pub flash: Option<String>,
    pub flash_type: Option<String>,
}

/// A planned amount for a category in a month.
pub struct NewBudgetForm {
    pub category: String,
    pub month: String,
    pub planned_amount: String,
}

// ── Savings goals ──

/// The notice of the savings goals page.
pub struct GoalsFilter {
    pub flash: Option<String>,
    pub flash_type: Option<String>,
}

/// A new savings goal.
pub struct NewGoalForm {
    pub name: String,
    pub target_amount: String,
    pub current_amount: Option<String>,
    pub target_date: Option<String>,
    pub category: String,
}

/// The amount saved so far towards a goal.
pub struct UpdateGoalAmountForm {
    pub amount: String,
}

/// The edited fields of a savings goal.
pub struct EditGoalForm {
    pub name: String,
    pub target_amount: String,
    pub current_amount: String,
    pub target_date: Option<String>,
    pub category: String,
}

// ── Holidays ──

/// The notice of the holidays page.
pub struct HolidaysFilter {
    pub flash: Option<String>,
    pub flash_type: Option<String>,
}

/// A new holiday period.
pub struct NewHolidayForm {
    pub name: String,
    pub start_date: String,
    pub end_date: String,
}

/// The edited fields of a holiday period.
pub struct EditHolidayForm {
    pub name: String,
    pub start_date: String,
    pub end_date: String,
}

// ── Reconciliation overview ──

/// The month the reconciliation overview covers.
pub struct ReconFilter {
    pub month: Option<String>,
}

} // verus!
