//! What the service around the engine decides, on plain values.
//!
//! The service reads a request and the stored snapshot, hands them to the
//! functions here, and stores and sends what they return.

use crate::book::OrderBook;
use crate::book_view::BookView;
use crate::ingest::{create_order_book, ingested};
use crate::matcher::{get_matcher, matcher_for};
use crate::order::{fill_views, Fill, Order};
use crate::snapshot::BookSnapshot;
use vstd::prelude::*;
use vstd::string::StringExecFns;

verus! {

/// Why a submission was not carried out.
#[derive(Clone, Copy, Debug, PartialEq, Eq, Structural)]
pub enum SubmitError {
    /// The stored snapshot does not describe a well-formed book.
    MalformedBook,
    /// The book has given out every arrival index.
    SequenceExhausted,
    /// The book refused the order.
    InvalidOrder,
}

/// The book that a submission starts from: the stored one, or an empty book
/// if nothing is stored.
pub open spec fn stored_book(stored: Option<BookSnapshot>) -> Option<BookView> {
    match stored {
        Some(s) => s@.restored(),
        None => Some(BookView { bids: Seq::empty(), asks: Seq::empty(), next_sequence: 0 }),
    }
}

/// The greeting of the entry page.
pub fn index() -> (r: &'static str)
    ensures
        r@ == "Please fill the form"@,
{
    "Please fill the form"
}

/// The answer to a request for a path that the service does not serve.
pub fn not_found(path: &str) -> (r: String)
    ensures
        r@ == "Oh no! We couldn't find the requested path '"@ + path@ + "'"@,
{
    String::from_str("Oh no! We couldn't find the requested path '").concat(path).concat("'")
}

/// The answer to a request whose data the service cannot process, given a
/// description of the request.
pub fn malformed(request: &str) -> (r: String)
    ensures
        r@ == "the submitted data could not be processed! '"@ + request@ + "'"@,
{
    String::from_str("the submitted data could not be processed! '").concat(request).concat("'")
}

/// The answer to a request to discard the stored book: a confirmation if
/// the book was discarded, nothing otherwise.
pub fn reset(deleted: bool) -> (r: String)
    ensures
        r@ == if deleted {
            "Order book deleted successfully"@
        } else {
            Seq::<char>::empty()
        },
{
    if deleted {
        String::from_str("Order book deleted successfully")
    } else {
        String::new()
    }
}

/// Carries out a submission: restores the stored book, lets `order` arrive,
/// runs a matching pass under the rule that `algo` selects, and returns the
/// snapshot to store and the fills to report.
pub fn add_order(stored: Option<BookSnapshot>, order: Order, algo: &str) -> (r: Result<
    (BookSnapshot, Vec<Fill>),
    SubmitError,
>)
    ensures
        match r {
            Ok((snapshot, fills)) => {
                &&& stored_book(stored) matches Some(b)
                &&& b.next_sequence < u64::MAX
                &&& order@.acceptable()
                &&& snapshot@ == matcher_for(algo@).settled(b.inserted(order@)).snapshot()
                &&& fill_views(fills@) == matcher_for(algo@).fills(b.inserted(order@), 0)
            },
            Err(SubmitError::MalformedBook) => stored_book(stored).is_none(),
            Err(SubmitError::SequenceExhausted) => {
                &&& stored_book(stored) matches Some(b)
                &&& b.next_sequence >= u64::MAX
            },
            Err(SubmitError::InvalidOrder) => {
                &&& stored_book(stored) matches Some(b)
                &&& b.next_sequence < u64::MAX
                &&& !order@.acceptable()
            },
        },
{
    let restored = match stored {
        Some(s) => OrderBook::from_snapshot(s),
        None => Some(OrderBook::new()),
    };
    let mut book = match restored {
        Some(book) => book,
        None => {
            return Err(SubmitError::MalformedBook);
        },
    };
    if book.next_sequence() == u64::MAX {
        return Err(SubmitError::SequenceExhausted);
    }
    let matcher = get_matcher(algo);
    match matcher.submit(&mut book, order) {
        Ok(fills) => Ok((book.to_snapshot(), fills)),
        Err(_) => Err(SubmitError::InvalidOrder),
    }
}


/// Carries out an upload: builds the resting book that `text` describes,
/// one order per line, and returns the snapshot to store. Nothing is matched.
pub fn upload(text: &str) -> (r: BookSnapshot)
    ensures
        r@ == ingested(text@).snapshot(),
{
    create_order_book(text).to_snapshot()
}

/// The answer to an upload, given the stored snapshot as text.
pub fn upload_reply(snapshot: &str) -> (r: String)
    ensures
        r@ == "Order file persisted"@ + snapshot@,
{
    String::from_str("Order file persisted").concat(snapshot)
}

} // verus!
