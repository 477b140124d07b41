//! Rendering listings as text tables split into pages of bounded size.
//!
//! Rows are added one at a time. When the table, rendered, grows longer than
//! the bound, the two rows added last move to the next page, and the page is
//! closed with a row that points to the next page.

use vstd::prelude::*;
use vstd::utf8::encode_utf8;
use crate::listing::{Listing, ListingView, views};
use crate::text::{int_text, nat_digits, integer_text, natural_text};

verus! {

/// The text of a table with the given rows of cells, as the table renderer
/// lays it out: columns aligned, no borders.
pub uninterp spec fn table_text(rows: Seq<Seq<Seq<char>>>) -> Seq<char>;

/// Relies on prettytable: renders rows of cells as a table in its "clean"
/// format. The text depends on the cells alone.
#[verifier::external_body]
fn render_table(rows: &Vec<Vec<String>>) -> (r: String)
    ensures
        r@ == table_text(rows.deep_view()),
{
    let mut table = prettytable::Table::from(rows.clone());
    table.set_format(*prettytable::format::consts::FORMAT_CLEAN);
    table.to_string()
}

/// The length in bytes of a text held in memory, as UTF-8.
pub open spec fn byte_len(s: Seq<char>) -> usize {
    encode_utf8(s).len() as usize
}

/// The heading row of every page.
pub open spec fn header_cells() -> Seq<Seq<char>> {
    seq!["Offer"@, "Request"@, "Location"@, "ID"@]
}

/// The row that shows a listing: what it offers, what it asks for, where,
/// and its id.
pub open spec fn listing_cells(l: ListingView) -> Seq<Seq<char>> {
    seq![
        int_text(l.offer_quantity as int) + " "@ + l.offer_item,
        int_text(l.request_quantity as int) + " "@ + l.request_item,
        "N:"@ + int_text(l.location_north as int) + " E:"@ + int_text(l.location_east as int),
        int_text(l.id as int),
    ]
}

/// The rows that show `listings`, in order.
pub open spec fn rows_of(listings: Seq<ListingView>) -> Seq<Seq<Seq<char>>> {
    listings.map_values(|l: ListingView| listing_cells(l))
}

/// The row that closes a page and points to page `next`.
pub open spec fn more_cells(next: nat) -> Seq<Seq<char>> {
    seq!["Show more... add page:"@ + nat_digits(next) + " to your command"@]
}

/// The pages closed so far, and the rows of the page being filled.
pub struct Pager {
    pub closed: Seq<Seq<Seq<Seq<char>>>>,
    pub open: Seq<Seq<Seq<char>>>,
}

/// Before any row: no closed page, an open page holding the heading.
pub open spec fn pager_start() -> Pager {
    Pager { closed: Seq::empty(), open: seq![header_cells()] }
}

/// How many of the rows of `grown` (heading included) move to the next page
/// when it overflows: the two added last, or the one data row there is.
pub open spec fn carried(grown: Seq<Seq<Seq<char>>>) -> int {
    if grown.len() >= 3 { 2 } else { 1 }
}

/// Adds one row. When the rendered page then exceeds `bound` bytes, the page
/// is closed without its last two rows and with a pointer to the next page,
/// and those rows open the next page after its heading.
pub open spec fn pager_step(p: Pager, row: Seq<Seq<char>>, bound: nat) -> Pager {
    let grown = p.open.push(row);
    if byte_len(table_text(grown)) <= bound {
        Pager { closed: p.closed, open: grown }
    } else {
        let cut = grown.len() - carried(grown);
        Pager {
            closed: p.closed.push(grown.take(cut).push(more_cells(p.closed.len() + 2))),
            open: seq![header_cells()] + grown.skip(cut),
        }
    }
}

/// The pager after adding `rows` in order.
pub open spec fn pager_run(rows: Seq<Seq<Seq<char>>>, bound: nat) -> Pager
    decreases rows.len(),
{
    if rows.len() == 0 {
        pager_start()
    } else {
        pager_step(pager_run(rows.drop_last(), bound), rows.last(), bound)
    }
}

/// The tables of all pages for `rows`, first page first.
pub open spec fn page_tables(rows: Seq<Seq<Seq<char>>>, bound: nat) -> Seq<Seq<Seq<Seq<char>>>> {
    let p = pager_run(rows, bound);
    p.closed.push(p.open)
}

/// The text of a page: its table inside a code fence.
pub open spec fn page_text(table: Seq<Seq<Seq<char>>>) -> Seq<char> {
    "```\n"@ + table_text(table) + "\n```"@
}

/// The index of the page shown for a request of page `requested` (counted
/// from one) out of `count` pages: the last page when out of range.
pub open spec fn shown_index(count: int, requested: i32) -> int {
    if 1 <= requested <= count {
        requested - 1
    } else {
        count - 1
    }
}

/// The text of the page numbered `page` of `listings`, split into pages of at
/// most `bound` bytes of table (an overflowing row may stand alone).
pub open spec fn shown_page(listings: Seq<ListingView>, bound: nat, page: i32) -> Seq<char> {
    let tables = page_tables(rows_of(listings), bound);
    page_text(tables[shown_index(tables.len() as int, page)])
}

fn header_row() -> (r: Vec<String>)
    ensures
        r.deep_view() == header_cells(),
{
    let mut r: Vec<String> = Vec::new();
    r.push(String::from_str("Offer"));
    r.push(String::from_str("Request"));
    r.push(String::from_str("Location"));
    r.push(String::from_str("ID"));
    proof {
        assert(r.deep_view() =~= header_cells());
    }
    r
}

fn listing_row(l: &Listing) -> (r: Vec<String>)
    ensures
        r.deep_view() == listing_cells(l@),
{
    let mut offer = integer_text(l.offer_quantity as i64);
    offer.append(" ");
    offer.append(l.offer_item.as_str());
    let mut request = integer_text(l.request_quantity as i64);
    request.append(" ");
    request.append(l.request_item.as_str());
    let mut location = String::from_str("N:");
    location.append(integer_text(l.location_north as i64).as_str());
    location.append(" E:");
    location.append(integer_text(l.location_east as i64).as_str());
    let id = integer_text(l.id);
    let mut r: Vec<String> = Vec::new();
    r.push(offer);
    r.push(request);
    r.push(location);
    r.push(id);
    proof {
        assert(r.deep_view() =~= listing_cells(l@));
    }
    r
}

fn more_row(next: u128) -> (r: Vec<String>)
    ensures
        r.deep_view() == more_cells(next as nat),
{
    let mut text = String::from_str("Show more... add page:");
    text.append(natural_text(next).as_str());
    text.append(" to your command");
    let mut r: Vec<String> = Vec::new();
    r.push(text);
    proof {
        assert(r.deep_view() =~= more_cells(next as nat));
    }
    r
}

fn fenced(table: &Vec<Vec<String>>) -> (r: String)
    ensures
        r@ == page_text(table.deep_view()),
{
    let mut r = String::from_str("```\n");
    r.append(render_table(table).as_str());
    r.append("\n```");
    r
}

/// The most bytes that the table of one page may take.
pub const PAGE_BOUND_BYTES: usize = 2000;

/// The page numbered `page` of `listings` under the usual page bound.
pub fn format_listings(listings: &Vec<Listing>, page: i32) -> (r: String)
    ensures
        r@ == shown_page(views(listings@), PAGE_BOUND_BYTES as nat, page),
{
    paginate(listings, PAGE_BOUND_BYTES, page)
}

/// The full description of one listing, inside a code fence.
pub open spec fn details_text(l: ListingView) -> Seq<char> {
    "```Description: "@ + l.description + "\nOffer: "@ + int_text(l.offer_quantity as int) + " "@
        + l.offer_item + "\nRequest: "@ + int_text(l.request_quantity as int) + " "@
        + l.request_item + "\nLocation: N:"@ + int_text(l.location_north as int) + " E:"@
        + int_text(l.location_east as int) + "\nStock: "@ + int_text(l.offer_count as int)
        + "\nUser: "@ + l.owner + "\n```"@
}

/// The full description of one listing, inside a code fence.
pub fn listing_details(l: &Listing) -> (r: String)
    ensures
        r@ == details_text(l@),
{
    let mut r = String::from_str("```Description: ");
    r.append(l.description.as_str());
    r.append("\nOffer: ");
    r.append(integer_text(l.offer_quantity as i64).as_str());
    r.append(" ");
    r.append(l.offer_item.as_str());
    r.append("\nRequest: ");
    r.append(integer_text(l.request_quantity as i64).as_str());
    r.append(" ");
    r.append(l.request_item.as_str());
    r.append("\nLocation: N:");
    r.append(integer_text(l.location_north as i64).as_str());
    r.append(" E:");
    r.append(integer_text(l.location_east as i64).as_str());
    r.append("\nStock: ");
    r.append(integer_text(l.offer_count as i64).as_str());
    r.append("\nUser: ");
    r.append(l.owner.as_str());
    r.append("\n```");
    r
}

/// The bounds of the square window of half-width `radius` around
/// (`north`, `east`), as "N (low - high) E (low - high)".
pub open spec fn window_text(north: i32, east: i32, radius: i32) -> Seq<char> {
    "N ("@ + int_text(north - radius) + " - "@ + int_text(north + radius) + ") E ("@ + int_text(
        east - radius,
    ) + " - "@ + int_text(east + radius) + ")"@
}

/// The bounds of a search window, for telling a player where nothing was
/// found.
pub fn describe_window(north: i32, east: i32, radius: i32) -> (r: String)
    ensures
        r@ == window_text(north, east, radius),
{
    let mut r = String::from_str("N (");
    r.append(integer_text(north as i64 - radius as i64).as_str());
    r.append(" - ");
    r.append(integer_text(north as i64 + radius as i64).as_str());
    r.append(") E (");
    r.append(integer_text(east as i64 - radius as i64).as_str());
    r.append(" - ");
    r.append(integer_text(east as i64 + radius as i64).as_str());
    r.append(")");
    r
}

/// The page numbered `page` (from one; the last page when out of range) of
/// the table of `listings`, in their order, split into pages whose tables
/// render to at most `bound` bytes, except where a page cannot hold even the
/// rows carried onto it.
pub fn paginate(listings: &Vec<Listing>, bound: usize, page: i32) -> (r: String)
    ensures
        r@ == shown_page(views(listings@), bound as nat, page),
{
    let ghost rows = rows_of(views(listings@));
    let mut open: Vec<Vec<String>> = Vec::new();
    open.push(header_row());
    let mut pages: Vec<String> = Vec::new();
    proof {
        assert(open.deep_view() =~= pager_start().open);
        assert(pages.deep_view() =~= pager_start().closed.map_values(
            |t: Seq<Seq<Seq<char>>>| page_text(t),
        ));
        assert(rows.take(0) =~= Seq::<Seq<Seq<char>>>::empty());
    }
    let mut i: usize = 0;
    while i < listings.len()
        invariant
            i <= listings@.len(),
            rows == rows_of(views(listings@)),
            open.deep_view() == pager_run(rows.take(i as int), bound as nat).open,
            pages.deep_view() == pager_run(rows.take(i as int), bound as nat).closed.map_values(
                |t: Seq<Seq<Seq<char>>>| page_text(t),
            ),
            pages@.len() <= i,
            open@.len() >= 1,
        decreases listings@.len() - i,
    {
        let ghost p = pager_run(rows.take(i as int), bound as nat);
        let ghost q = pager_run(rows.take(i + 1), bound as nat);
        let ghost done_before = pages.deep_view();
        proof {
            assert(rows.take(i + 1).drop_last() =~= rows.take(i as int));
            assert(rows.take(i + 1).last() == rows[i as int]);
            assert(q == pager_step(p, rows[i as int], bound as nat));
            assert(rows[i as int] == listing_cells(listings@[i as int]@));
            assert(done_before.len() == p.closed.len());
        }
        open.push(listing_row(&listings[i]));
        let ghost grown = p.open.push(rows[i as int]);
        proof {
            assert(open.deep_view() =~= grown);
        }
        let text = render_table(&open);
        if text.as_str().len() > bound {
            let n = open.len();
            let last = open.pop().unwrap();
            let mut carry: Vec<Vec<String>> = Vec::new();
            carry.push(header_row());
            if n >= 3 {
                let previous = open.pop().unwrap();
                carry.push(previous);
            }
            carry.push(last);
            let next = pages.len() as u128 + 2;
            open.push(more_row(next));
            let ghost cut = grown.len() - carried(grown);
            proof {
                assert(open.deep_view() =~= grown.take(cut).push(more_cells(p.closed.len() + 2)));
            }
            pages.push(fenced(&open));
            open = carry;
            proof {
                assert(open.deep_view() =~= q.open);
                assert(pages.deep_view() =~= done_before.push(page_text(q.closed.last())));
                assert(pages.deep_view() =~= q.closed.map_values(
                    |t: Seq<Seq<Seq<char>>>| page_text(t),
                ));
            }
        } else {
            proof {
                assert(byte_len(table_text(grown)) <= bound);
                assert(open.deep_view() == q.open);
                assert(pages.deep_view() =~= q.closed.map_values(
                    |t: Seq<Seq<Seq<char>>>| page_text(t),
                ));
            }
        }
        i = i + 1;
    }
    let ghost done_before = pages.deep_view();
    let ghost last_open = open.deep_view();
    pages.push(fenced(&open));
    proof {
        assert(rows.take(i as int) =~= rows);
        assert(pages.deep_view() =~= done_before.push(page_text(last_open)));
        let tables = page_tables(rows, bound as nat);
        assert(pages.deep_view() =~= tables.map_values(|t: Seq<Seq<Seq<char>>>| page_text(t)));
    }
    let count = pages.len();
    let index: usize = if 1 <= page && (page as usize) <= count {
        (page - 1) as usize
    } else {
        count - 1
    };
    proof {
        assert(pages.deep_view()[index as int] == pages[index as int]@);
    }
    pages[index].clone()
}

} // verus!

verus! {

/// What holds of the pager after any run over rows of four cells: the open
/// page starts with the heading and holds only rows of four cells, its last
/// row is the row added last (when it holds any beyond the heading), and
/// closed page `i` (from zero) ends by pointing to page `i + 2`.
pub open spec fn pager_shape(p: Pager, rows: Seq<Seq<Seq<char>>>) -> bool {
    &&& p.open.len() >= 1
    &&& p.open[0] == header_cells()
    &&& forall|j: int| 0 <= j < p.open.len() ==> (#[trigger] p.open[j]).len() == 4
    &&& (p.open.len() >= 2 ==> rows.len() > 0 && p.open.last() == rows.last())
    &&& forall|i: int|
        0 <= i < p.closed.len() ==> (#[trigger] p.closed[i]).len() >= 1 && p.closed[i].last()
            == more_cells((i + 2) as nat)
}

proof fn lemma_pager_shape(rows: Seq<Seq<Seq<char>>>, bound: nat)
    requires
        forall|i: int| 0 <= i < rows.len() ==> (#[trigger] rows[i]).len() == 4,
    ensures
        pager_shape(pager_run(rows, bound), rows),
    decreases rows.len(),
{
    if rows.len() > 0 {
        let prev = rows.drop_last();
        lemma_pager_shape(prev, bound);
        let p = pager_run(prev, bound);
        let grown = p.open.push(rows.last());
        let q = pager_run(rows, bound);
        assert(q == pager_step(p, rows.last(), bound));
        if byte_len(table_text(grown)) > bound {
            let cut = grown.len() - carried(grown);
            assert(q.open == seq![header_cells()] + grown.skip(cut));
            assert forall|j: int| 0 <= j < q.open.len() implies (#[trigger] q.open[j]).len() == 4 by {
                if j > 0 {
                    assert(q.open[j] == grown[cut + j - 1]);
                }
            }
            assert(q.open.last() == grown.last());
            assert forall|i: int| 0 <= i < q.closed.len() implies (#[trigger] q.closed[i]).len()
                >= 1 && q.closed[i].last() == more_cells((i + 2) as nat) by {
                if i < p.closed.len() {
                    assert(q.closed[i] == p.closed[i]);
                }
            }
        } else {
            assert forall|j: int| 0 <= j < q.open.len() implies (#[trigger] q.open[j]).len() == 4 by {
                if j < p.open.len() {
                    assert(q.open[j] == p.open[j]);
                }
            }
        }
    }
}

/// With no listings there is exactly one page, holding the heading alone.
pub proof fn lemma_empty_single_page(bound: nat)
    ensures
        page_tables(Seq::empty(), bound) == seq![seq![header_cells()]],
{
    assert(page_tables(Seq::empty(), bound) =~= seq![seq![header_cells()]]);
}

/// When the table never outgrows the bound as rows are added, there is
/// exactly one page: the heading, then every row in order.
pub proof fn lemma_fitting_single_page(rows: Seq<Seq<Seq<char>>>, bound: nat)
    requires
        forall|j: int|
            1 <= j <= rows.len() ==> byte_len(table_text(seq![header_cells()] + #[trigger] rows.take(j)))
                <= bound,
    ensures
        page_tables(rows, bound) == seq![seq![header_cells()] + rows],
    decreases rows.len(),
{
    if rows.len() == 0 {
        assert(page_tables(rows, bound) =~= seq![seq![header_cells()] + rows]);
    } else {
        let prev = rows.drop_last();
        assert forall|j: int| 1 <= j <= prev.len() implies byte_len(
            table_text(seq![header_cells()] + #[trigger] prev.take(j)),
        ) <= bound by {
            assert(prev.take(j) =~= rows.take(j));
        }
        lemma_fitting_single_page(prev, bound);
        let p = pager_run(prev, bound);
        assert(page_tables(prev, bound) == p.closed.push(p.open));
        assert(p.closed.push(p.open).len() == 1);
        assert(p.closed =~= Seq::<Seq<Seq<Seq<char>>>>::empty());
        assert(p.open == p.closed.push(p.open)[0]);
        assert(p.open =~= seq![header_cells()] + prev);
        assert(rows.take(rows.len() as int) =~= rows);
        assert(p.open.push(rows.last()) =~= seq![header_cells()] + rows);
        assert(page_tables(rows, bound) =~= seq![seq![header_cells()] + rows]);
    }
}

/// When adding row `k` (from zero) overflows a page that already holds a row
/// beyond the heading, that page is closed without rows `k - 1` and `k` and
/// with a pointer to the next page, and the next page opens with the heading,
/// row `k - 1` and row `k`.
pub proof fn lemma_overflow_carries_two(rows: Seq<Seq<Seq<char>>>, bound: nat, k: int)
    requires
        forall|i: int| 0 <= i < rows.len() ==> (#[trigger] rows[i]).len() == 4,
        1 <= k < rows.len(),
        pager_run(rows.take(k), bound).open.len() >= 2,
        byte_len(table_text(pager_run(rows.take(k), bound).open.push(rows[k]))) > bound,
    ensures
        pager_run(rows.take(k + 1), bound).open == seq![header_cells(), rows[k - 1], rows[k]],
        pager_run(rows.take(k + 1), bound).closed == pager_run(rows.take(k), bound).closed.push(
            pager_run(rows.take(k), bound).open.drop_last().push(
                more_cells((pager_run(rows.take(k), bound).closed.len() + 2) as nat),
            ),
        ),
{
    let prev = rows.take(k);
    let p = pager_run(prev, bound);
    lemma_pager_shape(prev, bound);
    assert(prev.last() == rows[k - 1]);
    let cur = rows.take(k + 1);
    assert(cur.drop_last() =~= prev);
    assert(cur.last() == rows[k]);
    let grown = p.open.push(rows[k]);
    let q = pager_run(cur, bound);
    assert(q == pager_step(p, rows[k], bound));
    assert(grown.len() >= 3);
    assert(q.open =~= seq![header_cells(), rows[k - 1], rows[k]]);
    assert(grown.take(grown.len() - 2) =~= p.open.drop_last());
}

/// Every page but the last ends by pointing to the page after it, and no row
/// of the last page is such a pointer.
pub proof fn lemma_pointer_on_all_but_last(rows: Seq<Seq<Seq<char>>>, bound: nat)
    requires
        forall|i: int| 0 <= i < rows.len() ==> (#[trigger] rows[i]).len() == 4,
    ensures
        forall|i: int|
            0 <= i < page_tables(rows, bound).len() - 1 ==> (#[trigger] page_tables(
                rows,
                bound,
            )[i]).last() == more_cells((i + 2) as nat),
        forall|j: int, n: nat|
            0 <= j < page_tables(rows, bound).last().len() ==> #[trigger] page_tables(
                rows,
                bound,
            ).last()[j] != #[trigger] more_cells(n),
{
    lemma_pager_shape(rows, bound);
    let p = pager_run(rows, bound);
    let t = page_tables(rows, bound);
    assert forall|i: int| 0 <= i < t.len() - 1 implies (#[trigger] t[i]).last() == more_cells(
        (i + 2) as nat,
    ) by {
        assert(t[i] == p.closed[i]);
    }
    assert forall|j: int, n: nat| 0 <= j < t.last().len() implies #[trigger] t.last()[j]
        != #[trigger] more_cells(n) by {
        assert(t.last() == p.open);
        assert(p.open[j].len() == 4);
        assert(more_cells(n).len() == 1);
    }
}

/// The rows that show listings have four cells each.
pub proof fn lemma_listing_rows_have_four_cells(listings: Seq<ListingView>)
    ensures
        forall|i: int|
            0 <= i < rows_of(listings).len() ==> (#[trigger] rows_of(listings)[i]).len() == 4,
{
}

} // verus!
