use vstd::prelude::*;

verus! {

use vstd::math::max;
use vstd::math::min;
use vstd::pervasive::cloned;

/// A fixed-size windowing view over a sequence of items: page `n` is the
/// window of `size` items starting at offset `n * size`. The view is a
/// transient computation over a caller-provided sequence; it retains no
/// state between calls.
pub struct Page<T> where T: Clone {
    pub items: Vec<T>,
    pub size: usize,
}

/// The window of `items` addressed by the zero-based page index `n` with
/// window size `size`: empty when `size` is zero or when the window starts
/// at or past the end of the sequence, truncated at the end otherwise.
pub open spec fn spec_page<T>(items: Seq<T>, size: int, n: int) -> Seq<T> {
    if size <= 0 || n < 0 || n * size >= items.len() {
        Seq::empty()
    } else if n * size + size <= items.len() {
        items.subrange(n * size, n * size + size)
    } else {
        items.subrange(n * size, items.len() as int)
    }
}

/// The concatenation of the first `n` windows of `items`, in order.
pub open spec fn pages_concat<T>(items: Seq<T>, size: int, n: int) -> Seq<T>
    decreases n,
{
    if n <= 0 {
        Seq::empty()
    } else {
        pages_concat(items, size, n - 1) + spec_page(items, size, n - 1)
    }
}

/// Every window has length `min(size, max(0, |items| - n * size))`.
pub proof fn lemma_page_len<T>(items: Seq<T>, size: int, n: int)
    requires
        size >= 1,
        n >= 0,
    ensures
        spec_page(items, size, n).len() == min(size, max(0, items.len() - n * size)),
{
    assert(n * size >= 0) by (nonlinear_arith)
        requires
            n >= 0,
            size >= 1,
    ;
}

/// A window that starts at or past the end of the sequence is empty.
pub proof fn lemma_page_past_end<T>(items: Seq<T>, size: int, n: int)
    requires
        size >= 1,
        n * size >= items.len(),
    ensures
        spec_page(items, size, n) == Seq::<T>::empty(),
{
}

/// The first `n` windows concatenate to the first `min(n * size, |items|)`
/// items of the sequence.
proof fn lemma_pages_concat_prefix<T>(items: Seq<T>, size: int, n: int)
    requires
        size >= 1,
        n >= 0,
    ensures
        pages_concat(items, size, n) == items.take(min(n * size, items.len() as int)),
    decreases n,
{
    if n == 0 {
        assert(pages_concat(items, size, 0) =~= items.take(0));
    } else {
        lemma_pages_concat_prefix(items, size, n - 1);
        assert((n - 1) * size == n * size - size) by (nonlinear_arith);
        assert((n - 1) * size >= 0) by (nonlinear_arith)
            requires
                n >= 1,
                size >= 1,
        ;
        let len = items.len() as int;
        let prev = min((n - 1) * size, len);
        let cur = min(n * size, len);
        let page = spec_page(items, size, n - 1);
        assert(pages_concat(items, size, n) == items.take(prev) + page);
        if (n - 1) * size >= len {
            assert(page =~= Seq::<T>::empty());
            assert(items.take(prev) + page =~= items.take(cur));
        } else {
            assert(items.take(prev) + page =~= items.take(cur));
        }
        assert(pages_concat(items, size, n) == items.take(cur));
    }
}

/// Concatenating the windows `0, 1, ..., n - 1`, where window `n - 1` already
/// reaches the end of the sequence, reconstructs the sequence exactly; every
/// later window is empty.
pub proof fn lemma_pages_concat_all<T>(items: Seq<T>, size: int, n: int)
    requires
        size >= 1,
        n >= 0,
        n * size >= items.len(),
    ensures
        pages_concat(items, size, n) == items,
        forall|m: int| m >= n ==> spec_page(items, size, m) == Seq::<T>::empty(),
{
    lemma_pages_concat_prefix(items, size, n);
    assert(pages_concat(items, size, n) =~= items);
    assert forall|m: int| m >= n implies spec_page(items, size, m) == Seq::<T>::empty() by {
        assert(m * size >= n * size) by (nonlinear_arith)
            requires
                m >= n,
                size >= 1,
        ;
    }
}

impl<T> Page<T> where T: Clone {
    /// Wraps `items` with window size `size`.
    pub fn create(items: Vec<T>, size: usize) -> (p: Page<T>)
        ensures
            p.items == items,
            p.size == size,
    {
        Page { items, size }
    }

    /// The `number`-th window: up to `size` items starting at offset
    /// `number * size`, each a clone of the corresponding input item. A
    /// window past the end, or a zero window size, yields an empty vector,
    /// never an error.
    pub fn nth(&self, number: usize) -> (r: Vec<T>)
        ensures
            ({
                let w = spec_page(self.items@, self.size as int, number as int);
                &&& r@.len() == w.len()
                &&& forall|i: int| 0 <= i < r@.len() ==> cloned(w[i], #[trigger] r@[i])
            }),
    {
        let ghost w = spec_page(self.items@, self.size as int, number as int);
        let len = self.items.len();
        if self.size == 0 {
            return Vec::new();
        }
        let start = match number.checked_mul(self.size) {
            Some(s) => s,
            None => {
                proof {
                    assert(number as int * self.size as int >= self.items@.len());
                }
                return Vec::new();
            },
        };
        if start >= len {
            return Vec::new();
        }
        let end = if len - start < self.size {
            len
        } else {
            start + self.size
        };
        proof {
            assert(w =~= self.items@.subrange(start as int, end as int));
        }
        let mut r: Vec<T> = Vec::new();
        let mut i = start;
        while i < end
            invariant
                start <= i <= end <= len,
                len == self.items@.len(),
                w == self.items@.subrange(start as int, end as int),
                r@.len() == i - start,
                forall|k: int| 0 <= k < r@.len() ==> cloned(w[k], #[trigger] r@[k]),
            decreases end - i,
        {
            r.push(self.items[i].clone());
            i += 1;
        }
        r
    }
}

} // verus!
