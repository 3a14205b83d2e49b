use vstd::prelude::*;

verus! {

use crate::library::ItemModel;
use crate::library::LibraryError;
use crate::library::LibraryItem;
use crate::library::filter_items;
use crate::library::spec_filter;
use crate::page::Page;
use crate::page::spec_page;
use vstd::pervasive::cloned;

/// The payload handed back to the boundary: the selected sequence of items.
pub struct FetchData<T> {
    pub items: Vec<T>,
}

/// Query parameters for listing the library root.
pub struct SimpleQuery {
    pub page: usize,
    pub page_size: usize,
    pub all: bool,
    pub query: String,
}

/// Query parameters for listing a sub-path of the library.
pub struct DepthQuery {
    pub page: usize,
    pub page_size: usize,
    pub path: String,
    pub all: bool,
    pub query: String,
}

/// The window size used when a request does not give one.
pub fn default_page_size() -> (r: usize)
    ensures
        r == 10,
{
    10
}

/// The page index used when a request does not give one.
pub fn default_page_number() -> (r: usize)
    ensures
        r == 0,
{
    0
}

/// What a listing request returns for the scan outcome `scan`: a failed
/// scan's error unchanged, and otherwise the scanned entries filtered by
/// `query` and, unless `all` is set, reduced to the requested window.
pub fn fetch_items(
    scan: Result<Vec<LibraryItem>, LibraryError>,
    query: &str,
    all: bool,
    number: usize,
    page_size: usize,
) -> (r: Result<Vec<LibraryItem>, LibraryError>)
    ensures
        scan matches Err(e) ==> r == Err::<Vec<LibraryItem>, LibraryError>(e),
        scan matches Ok(items) ==> ({
            let f = spec_filter(items.deep_view(), query@);
            &&& r is Ok
            &&& r->Ok_0.deep_view() == (if all {
                f
            } else {
                spec_page(f, page_size as int, number as int)
            })
        }),
{
    match scan {
        Err(e) => Err(e),
        Ok(items) => {
            let filtered = filter_items(items, query);
            if all {
                Ok(filtered)
            } else {
                let ghost fd = filtered.deep_view();
                let page = Page::create(filtered, page_size);
                let out = page.nth(number);
                proof {
                    let w = spec_page(page.items@, page_size as int, number as int);
                    let wd = spec_page(fd, page_size as int, number as int);
                    assert(fd.len() == page.items@.len());
                    assert(out.deep_view() =~= wd) by {
                        assert forall|i: int| 0 <= i < out@.len() implies out@[i]@ == wd[i] by {
                            assert(cloned(w[i], out@[i]));
                            assert(out@[i]@ == w[i]@);
                            assert(wd[i] == fd[number as int * page_size as int + i]);
                            assert(w[i] == page.items@[number as int * page_size as int + i]);
                        }
                    }
                }
                Ok(out)
            }
        },
    }
}

} // verus!
