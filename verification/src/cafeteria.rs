use vstd::prelude::*;

verus! {

use vstd::string::StrSliceExecFns;

use crate::pipeline::Handler;
use crate::pipeline::HandlerFailure;
use crate::pipeline::Pipeline;
use crate::pipeline::Policy;
use crate::pipeline::RunReport;

/// A lunch category. An order is classified by case-sensitive keyword
/// containment, trying `salad`, then `sandwich`, then `burger`, and falling
/// back to `Miscellaneous` when no keyword occurs.
#[derive(Clone, Copy, Debug, PartialEq, Eq, Structural)]
pub enum Category {
    Salad,
    Sandwich,
    Burger,
    Miscellaneous,
}

/// The pattern occurs in the text as the run of characters starting at `i`.
pub open spec fn match_at(text: Seq<char>, pat: Seq<char>, i: int) -> bool {
    &&& 0 <= i
    &&& i + pat.len() <= text.len()
    &&& text.subrange(i, i + pat.len()) == pat
}

/// The text contains the pattern as a contiguous run of characters.
pub open spec fn text_contains(text: Seq<char>, pat: Seq<char>) -> bool {
    exists|i: int| match_at(text, pat, i)
}

/// Whether the pattern occurs at one given position of the text.
fn match_here(text: &str, pat: &str, i: usize, plen: usize) -> (m: bool)
    requires
        plen == pat@.len(),
        i + plen <= text@.len(),
        text@.len() <= usize::MAX,
    ensures
        m == match_at(text@, pat@, i as int),
{
    let mut j: usize = 0;
    while j < plen
        invariant
            plen == pat@.len(),
            i + plen <= text@.len(),
            text@.len() <= usize::MAX,
            j <= plen,
            forall|k: int| 0 <= k < j ==> text@[i + k] == pat@[k],
        decreases plen - j,
    {
        let tc = text.get_char(i + j);
        let pc = pat.get_char(j);
        if tc != pc {
            proof {
                assert(text@.subrange(i as int, i + pat@.len())[j as int] == text@[i + j]);
            }
            return false;
        }
        j += 1;
    }
    proof {
        assert(text@.subrange(i as int, i + pat@.len()) =~= pat@);
    }
    true
}

/// Case-sensitive containment check: does `pat` occur anywhere in `text`?
pub fn str_contains(text: &str, pat: &str) -> (found: bool)
    ensures
        found == text_contains(text@, pat@),
{
    let tlen: usize = text.unicode_len();
    let plen: usize = pat.unicode_len();
    if plen > tlen {
        proof {
            assert(forall|i: int| !match_at(text@, pat@, i));
        }
        return false;
    }
    if plen == 0 {
        proof {
            assert(text@.subrange(0, 0) =~= pat@);
            assert(match_at(text@, pat@, 0));
        }
        return true;
    }
    let mut i: usize = 0;
    while i <= tlen - plen
        invariant
            tlen == text@.len(),
            plen == pat@.len(),
            1 <= plen <= tlen,
            i <= tlen - plen + 1,
            forall|k: int| 0 <= k < i ==> !match_at(text@, pat@, k),
        decreases tlen - plen - i + 1,
    {
        if match_here(text, pat, i, plen) {
            return true;
        }
        i += 1;
    }
    proof {
        assert(forall|k: int| k > tlen - plen ==> !match_at(text@, pat@, k));
    }
    false
}

/// The category an order belongs to: the first of `salad`, `sandwich`,
/// `burger` that occurs in the order text, or `Miscellaneous` if none does.
pub open spec fn spec_classify(order: Seq<char>) -> Category {
    if text_contains(order, "salad"@) {
        Category::Salad
    } else if text_contains(order, "sandwich"@) {
        Category::Sandwich
    } else if text_contains(order, "burger"@) {
        Category::Burger
    } else {
        Category::Miscellaneous
    }
}

/// Classify one order by keyword containment, in fixed priority order.
pub fn classify(order: &str) -> (cat: Category)
    ensures
        cat == spec_classify(order@),
{
    if str_contains(order, "salad") {
        Category::Salad
    } else if str_contains(order, "sandwich") {
        Category::Sandwich
    } else if str_contains(order, "burger") {
        Category::Burger
    } else {
        Category::Miscellaneous
    }
}

/// The cafeteria's task handler: classify the order text by its keywords.
/// It succeeds on every order; an order without keywords is miscellaneous.
pub struct CafeteriaHandler;

impl Handler<String, Category> for CafeteriaHandler {
    open spec fn succeeds(&self, task: String) -> bool {
        true
    }

    open spec fn transformed(&self, task: String) -> Category {
        spec_classify(task@)
    }

    fn apply(&self, task: &String) -> (out: Result<Category, HandlerFailure>) {
        Ok(classify(task.as_str()))
    }
}

/// A handler that fails on every order: the worst kitchen there is, useful
/// for exercising the failure policies.
pub struct FailingHandler;

impl Handler<String, Category> for FailingHandler {
    open spec fn succeeds(&self, task: String) -> bool {
        false
    }

    open spec fn transformed(&self, task: String) -> Category {
        Category::Miscellaneous
    }

    fn apply(&self, _task: &String) -> (out: Result<Category, HandlerFailure>) {
        Err(HandlerFailure)
    }
}

/// Serve a batch of orders with a pool of cafeteria workers competing for
/// them under the given interleaving. Every order yields exactly one lunch:
/// its classification. Arrival order depends on the interleaving, so each
/// lunch is tied to its order through the report's origin indices instead.
pub fn serve_orders(orders: Vec<String>, num_workers: usize, schedule: &Vec<usize>) -> (report:
    RunReport<String, Category>)
    requires
        num_workers >= 1,
        forall|i: int| 0 <= i < schedule@.len() ==> #[trigger] schedule@[i] < num_workers,
    ensures
        report.results@.len() == orders@.len(),
        report.origin@.len() == orders@.len(),
        report.failures == 0,
        report.leftover@.len() == 0,
        forall|i: int|
            0 <= i < report.origin@.len() ==> 0 <= #[trigger] report.origin@[i] < orders@.len()
                && report.results@[i] == spec_classify(orders@[report.origin@[i]]@),
        forall|i1: int, i2: int|
            0 <= i1 < report.origin@.len() && 0 <= i2 < report.origin@.len() && i1 != i2
                ==> #[trigger] report.origin@[i1] != #[trigger] report.origin@[i2],
        forall|k: int| 0 <= k < orders@.len() ==> report.origin@.contains(k),
{
    let ghost all = orders@;
    let report = Pipeline::run_batch(
        CafeteriaHandler,
        orders,
        num_workers,
        Policy::DropTask,
        schedule,
    );
    proof {
        assert(forall|k: int|
            0 <= k < all.len() ==> (CafeteriaHandler).succeeds(#[trigger] all[k]));
        assert(report.leftover@.len() == 0);
        assert forall|k: int| 0 <= k < all.len() implies report.origin@.contains(k) by {
            assert((CafeteriaHandler).succeeds(all[k]));
        }
    }
    report
}

} // verus!
