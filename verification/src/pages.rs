use vstd::prelude::*;

verus! {

/// How many cards a view page shows.
pub const PAGE_SIZE: usize = 50;

/// The slice of a topic's card list that one view page shows: the clamped
/// page number, the last page number, and the start and end of the slice.
pub fn page_bounds(card_count: usize, requested: Option<usize>) -> (r: (usize, usize, usize, usize))
    requires
        card_count <= usize::MAX - PAGE_SIZE,
    ensures
        r.1 == card_count as int / PAGE_SIZE as int,
        r.0 == (match requested {
            Some(p) => if p < r.1 {
                p as int
            } else {
                r.1 as int
            },
            None => 0,
        }),
        r.2 == (if r.0 * PAGE_SIZE < card_count {
            r.0 * PAGE_SIZE as int
        } else {
            card_count as int
        }),
        r.3 == (if (r.0 + 1) * PAGE_SIZE < card_count {
            (r.0 + 1) * PAGE_SIZE as int
        } else {
            card_count as int
        }),
        r.2 <= r.3 <= card_count,
{
    let max_page = card_count / PAGE_SIZE;
    let want = match requested {
        Some(p) => p,
        None => 0,
    };
    let page = if want < max_page {
        want
    } else {
        max_page
    };
    proof {
        assert(page * PAGE_SIZE <= card_count) by (nonlinear_arith)
            requires
                page as int <= card_count as int / (PAGE_SIZE as int),
                PAGE_SIZE == 50,
        ;
    }
    let start = if page * PAGE_SIZE < card_count {
        page * PAGE_SIZE
    } else {
        card_count
    };
    let end = if (page + 1) * PAGE_SIZE < card_count {
        (page + 1) * PAGE_SIZE
    } else {
        card_count
    };
    (page, max_page, start, end)
}

/// The neighbours of a card in its topic's list: the previous id, if any,
/// and the next, if any.
pub fn study_nav(id: usize, card_count: usize) -> (r: (Option<usize>, Option<usize>))
    requires
        id < card_count,
    ensures
        r.0 == (if id == 0 {
            Option::<usize>::None
        } else {
            Some((id - 1) as usize)
        }),
        r.1 == (if id + 1 < card_count {
            Some((id + 1) as usize)
        } else {
            Option::<usize>::None
        }),
{
    let previous = if id == 0 {
        None
    } else {
        Some(id - 1)
    };
    let next = if id < card_count - 1 {
        Some(id + 1)
    } else {
        None
    };
    (previous, next)
}

/// Relies on `rand::random_range`: a uniform sample of `0..n`. The call
/// panics only on an empty range, which the precondition rules out.
#[verifier::external_body]
pub fn random_below(n: usize) -> (r: usize)
    requires
        n >= 1,
    ensures
        r < n,
{
    rand::random_range(0..n)
}

/// Pick the card a study page shows from a topic with `card_count` cards:
/// the requested id if it is in range, a random one when none is requested,
/// nothing when the request is out of range. With the card come its
/// neighbours' ids.
pub fn study_selection(card_count: usize, requested: Option<usize>) -> (r: Option<
    (usize, Option<usize>, Option<usize>),
>)
    requires
        card_count >= 1,
    ensures
        match requested {
            Some(id) => (id < card_count ==> (r matches Some(t) && t.0 == id)) && (id >= card_count
                ==> r is None),
            None => r is Some,
        },
        r matches Some(t) ==> t.0 < card_count && t.1 == (if t.0 == 0 {
            Option::<usize>::None
        } else {
            Some((t.0 - 1) as usize)
        }) && t.2 == (if t.0 + 1 < card_count {
            Some((t.0 + 1) as usize)
        } else {
            Option::<usize>::None
        }),
{
    let id = match requested {
        Some(id) => id,
        None => random_below(card_count),
    };
    if id >= card_count {
        return None;
    }
    let (previous, next) = study_nav(id, card_count);
    Some((id, previous, next))
}

} // verus!
