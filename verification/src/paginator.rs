use vstd::prelude::*;

verus! {

/// Page indicator representation
#[derive(Clone, Copy, Debug, PartialEq, Eq, Structural, Hash)]
pub enum PaginatorMode {
    /// Renders one circle per visible page
    Dots,
    /// Renders the current and total page numbers
    Numeric,
}

/// Keyboard commands understood by a paginator
#[derive(Clone, Copy, Debug, PartialEq, Eq, Structural, Hash)]
pub enum PaginatorAction {
    /// Moves to the previous page
    Previous,
    /// Moves to the next page
    Next,
    /// Moves to the first page
    First,
    /// Moves to the last page
    Last,
}

/// The page clamped into `0..total`, absent without pages
pub open spec fn spec_normalized_page(page: nat, total: nat) -> Option<nat> {
    if total == 0 {
        None
    } else if page < total {
        Some(page)
    } else {
        Some((total - 1) as nat)
    }
}

/// Clamps a page into `0..total`
pub fn normalized_page(page: usize, total: usize) -> (normalized: Option<usize>)
    ensures
        normalized matches Some(p) ==> spec_normalized_page(page as nat, total as nat) == Some(
            p as nat,
        ),
        normalized is None ==> spec_normalized_page(page as nat, total as nat) is None,
{
    if total == 0 {
        None
    } else if page < total {
        Some(page)
    } else {
        Some(total - 1)
    }
}

/// The visible page indicator range: every page when they fit, otherwise `limit` pages
/// centred on the page as far as the ends allow
pub open spec fn spec_paginator_window(total: nat, page: nat, limit: nat) -> (nat, nat) {
    if total == 0 {
        (0, 0)
    } else if limit == 0 || limit >= total {
        (0, total)
    } else {
        let current = if page < total {
            page
        } else {
            (total - 1) as nat
        };
        let back = if current > limit / 2 {
            (current - limit / 2) as nat
        } else {
            0
        };
        let start = if back < total - limit {
            back
        } else {
            (total - limit) as nat
        };
        (start, start + limit)
    }
}

/// The indicator window lies within the pages, holds `limit` of them or all of them when they
/// fit or no limit is set, and holds the current page
pub proof fn lemma_paginator_window_shape(total: nat, page: nat, limit: nat)
    ensures
        ({
            let window = spec_paginator_window(total, page, limit);
            &&& window.0 <= window.1 <= total
            &&& window.1 - window.0 == (if limit == 0 || limit >= total {
                total
            } else {
                limit
            })
            &&& spec_normalized_page(page, total) matches Some(current) ==> window.0 <= current
                < window.1
        }),
{
}

/// Chooses the visible page indicator range
pub fn paginator_window(total: usize, page: usize, limit: usize) -> (window: (usize, usize))
    ensures
        (window.0 as nat, window.1 as nat) == spec_paginator_window(
            total as nat,
            page as nat,
            limit as nat,
        ),
        window.0 <= window.1 <= total,
        window.1 - window.0 == (if limit == 0 || limit >= total {
            total
        } else {
            limit
        }),
        spec_normalized_page(page as nat, total as nat) matches Some(current) ==> window.0 <= current
            < window.1,
{
    proof {
        lemma_paginator_window_shape(total as nat, page as nat, limit as nat);
    }
    if total == 0 {
        return (0, 0);
    }
    if limit == 0 || limit >= total {
        return (0, total);
    }
    let current = if page < total {
        page
    } else {
        total - 1
    };
    let back = current.saturating_sub(limit / 2);
    let start = if back < total - limit {
        back
    } else {
        total - limit
    };
    (start, start + limit)
}

/// The page an action selects, absent without pages
pub open spec fn spec_page_for_action(page: nat, total: nat, action: PaginatorAction) -> Option<nat> {
    match spec_normalized_page(page, total) {
        None => None,
        Some(current) => Some(
            match action {
                PaginatorAction::Previous => if current > 0 {
                    (current - 1) as nat
                } else {
                    0
                },
                PaginatorAction::Next => if current + 1 < total {
                    current + 1
                } else {
                    (total - 1) as nat
                },
                PaginatorAction::First => 0,
                PaginatorAction::Last => (total - 1) as nat,
            },
        ),
    }
}

/// Moves the page for one paginator action
pub fn page_for_action(page: usize, total: usize, action: PaginatorAction) -> (next: Option<usize>)
    ensures
        next matches Some(p) ==> spec_page_for_action(page as nat, total as nat, action) == Some(
            p as nat,
        ) && p < total,
        next is None ==> spec_page_for_action(page as nat, total as nat, action) is None,
{
    let current = match normalized_page(page, total) {
        Some(current) => current,
        None => {
            return None;
        },
    };
    Some(
        match action {
            PaginatorAction::Previous => current.saturating_sub(1),
            PaginatorAction::Next => if current + 1 < total {
                current + 1
            } else {
                total - 1
            },
            PaginatorAction::First => 0,
            PaginatorAction::Last => total - 1,
        },
    )
}

} // verus!
