//! Offset/limit pagination over a remote listing.

use vstd::prelude::*;

verus! {

/// The largest page that the chapter feed serves.
pub const CHAPTER_PAGE_LIMIT: u32 = 500;

/// The page size used for cover listings.
pub const COVER_PAGE_LIMIT: u32 = 10;

/// Where a paginated listing stands: the offset and size of the next page to
/// ask for, and whether the listing is complete.
#[derive(PartialEq, Eq, Structural, Clone, Copy, Debug)]
pub struct Pager {
    pub offset: u32,
    pub limit: u32,
    pub done: bool,
}

/// A listing that can go no further.
#[derive(PartialEq, Eq, Structural, Clone, Copy, Debug)]
pub enum PageError {
    /// The next offset does not fit in a `u32`.
    OffsetOverflow,
}

impl Pager {
    /// The pager after a reply that reports its own offset, limit and the
    /// listing's total: the listing ends once that page reaches past the
    /// total; otherwise the next page starts one page further on.
    pub open spec fn after(self, reply_offset: u32, reply_limit: u32, reply_total: u32) -> Result<
        Pager,
        PageError,
    > {
        if self.done || reply_offset + reply_limit > reply_total {
            Ok(Pager { offset: self.offset, limit: self.limit, done: true })
        } else if self.offset + self.limit > u32::MAX {
            Err(PageError::OffsetOverflow)
        } else {
            Ok(Pager { offset: (self.offset + self.limit) as u32, limit: self.limit, done: false })
        }
    }

    /// A listing that starts at offset zero, `limit` items a page.
    pub fn new(limit: u32) -> (r: Pager)
        requires
            limit > 0,
        ensures
            r == (Pager { offset: 0, limit, done: false }),
    {
        Pager { offset: 0, limit, done: false }
    }

    /// Takes in what the reply to the current page reports.
    pub fn advance(&mut self, reply_offset: u32, reply_limit: u32, reply_total: u32) -> (r: Result<
        (),
        PageError,
    >)
        ensures
            match old(self).after(reply_offset, reply_limit, reply_total) {
                Ok(p) => r is Ok && *final(self) == p,
                Err(e) => r == Err::<(), PageError>(e) && *final(self) == *old(self),
            },
    {
        if self.done || reply_offset as u64 + reply_limit as u64 > reply_total as u64 {
            self.done = true;
            Ok(())
        } else if self.offset as u64 + self.limit as u64 > u32::MAX as u64 {
            Err(PageError::OffsetOverflow)
        } else {
            self.offset = self.offset + self.limit;
            Ok(())
        }
    }
}

/// The offsets that a listing of `total` items asks for from pager `p` on,
/// when each reply reports the page that was asked for.
pub open spec fn requested(p: Pager, total: u32) -> Seq<int>
    decreases total - p.offset,
{
    if p.done || p.limit == 0 {
        Seq::empty()
    } else if p.offset + p.limit > total {
        seq![p.offset as int]
    } else {
        seq![p.offset as int] + requested(
            Pager { offset: (p.offset + p.limit) as u32, limit: p.limit, done: false },
            total,
        )
    }
}

/// `requested` is the run of `advance`: with a reply that reports the page
/// asked for, the pager asks for its current offset and then goes on as the
/// advanced pager does.
pub proof fn law_requested_follows_advance(p: Pager, total: u32)
    requires
        !p.done,
        p.limit > 0,
    ensures
        match p.after(p.offset, p.limit, total) {
            Ok(q) => requested(p, total) == seq![p.offset as int] + requested(q, total),
            Err(_) => false,
        },
{
    if p.offset + p.limit > total {
        assert(requested(p, total) =~= seq![p.offset as int] + Seq::<int>::empty());
    }
}

proof fn lemma_requested_from(j: int, limit: u32, total: u32)
    requires
        limit > 0,
        0 <= j <= (total as int) / (limit as int),
    ensures
        requested(Pager { offset: (j * limit) as u32, limit, done: false }, total) =~= Seq::new(
            ((total as int) / (limit as int) + 1 - j) as nat,
            |k: int| (j + k) * limit,
        ),
    decreases (total as int) / (limit as int) - j,
{
    let n = (total as int) / (limit as int);
    let l = limit as int;
    assert(n * l <= total && total < (n + 1) * l) by {
        vstd::arithmetic::div_mod::lemma_fundamental_div_mod(total as int, l);
        vstd::arithmetic::div_mod::lemma_mod_pos_bound(total as int, l);
        assert((n + 1) * l == n * l + l) by (nonlinear_arith);
        assert(l * n == n * l) by (nonlinear_arith);
    }
    assert(0 <= j * l <= n * l) by (nonlinear_arith)
        requires
            0 <= j <= n,
            l > 0,
    ;
    let p = Pager { offset: (j * limit) as u32, limit, done: false };
    assert(p.offset == j * l);
    if j * l + l > total {
        assert(j == n) by (nonlinear_arith)
            requires
                j * l + l > total,
                n * l <= total,
                j <= n,
                l > 0,
        ;
    } else {
        assert(j + 1 <= n) by (nonlinear_arith)
            requires
                j * l + l <= total,
                total < (n + 1) * l,
                l > 0,
        ;
        lemma_requested_from(j + 1, limit, total);
        assert((j + 1) * l == j * l + l) by (nonlinear_arith);
        assert(Pager { offset: (p.offset + p.limit) as u32, limit, done: false } == Pager {
            offset: ((j + 1) * limit) as u32,
            limit,
            done: false,
        });
        let rest = Seq::new((n + 1 - (j + 1)) as nat, |k: int| (j + 1 + k) * limit);
        assert forall|k: int| 0 <= k < rest.len() implies #[trigger] rest[k] == (j + (k + 1))
            * limit by {}
    }
}

/// A listing of `total` items, `limit` a page, asks for exactly the pages at
/// offsets `0, limit, 2 * limit, ...` up to `(total / limit) * limit`, and
/// then stops: `total / limit + 1` pages.
pub proof fn law_page_offsets(limit: u32, total: u32)
    requires
        limit > 0,
    ensures
        requested(Pager { offset: 0, limit, done: false }, total) =~= Seq::new(
            ((total as int) / (limit as int) + 1) as nat,
            |k: int| k * limit,
        ),
{
    lemma_requested_from(0, limit, total);
    assert((0 * limit) as u32 == 0);
}

} // verus!
