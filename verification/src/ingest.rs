//! Bulk ingestion: a resting book from line-oriented text.
//!
//! The text holds one order per line. A line is made of five fields that
//! single spaces separate: quantity, symbol, price, side and order type.
//! Quantity and price are decimal numbers, the side is `Buy` or `Sell`, the
//! order type `Limit` or `Market`. A line of any other form is passed over.
//! The orders arrive in the order of their lines; no matching takes place.

use crate::book::OrderBook;
use crate::book_view::BookView;
use crate::counting::count;
use crate::order::{Order, OrderType, OrderView, Side};
use vstd::prelude::*;
use vstd::string::StringExecFns;

verus! {

/// The texts of a sequence of strings, in order.
pub open spec fn texts(v: Seq<String>) -> Seq<Seq<char>> {
    Seq::new(v.len(), |i: int| v[i]@)
}

/// The state of splitting after the first `k` characters of `s`: the pieces
/// that a separator has closed, and the piece under way.
pub open spec fn split_upto(s: Seq<char>, sep: char, k: int) -> (Seq<Seq<char>>, Seq<char>)
    decreases k,
{
    if k <= 0 {
        (Seq::empty(), Seq::empty())
    } else {
        let (closed, open) = split_upto(s, sep, k - 1);
        if s[k - 1] == sep {
            (closed.push(open), Seq::empty())
        } else {
            (closed, open.push(s[k - 1]))
        }
    }
}

/// The pieces of `s` between the occurrences of `sep`. There is one piece
/// more than there are separators; a piece may be empty.
pub open spec fn split(s: Seq<char>, sep: char) -> Seq<Seq<char>> {
    let (closed, open) = split_upto(s, sep, s.len() as int);
    closed.push(open)
}

/// The pieces put together again, with `sep` between neighbours.
pub open spec fn joined(pieces: Seq<Seq<char>>, sep: char) -> Seq<char>
    decreases pieces.len(),
{
    if pieces.len() == 0 {
        Seq::empty()
    } else if pieces.len() == 1 {
        pieces[0]
    } else {
        joined(pieces.drop_last(), sep).push(sep) + pieces.last()
    }
}

/// The places of `s` that hold `sep`, as a predicate on indices.
pub open spec fn separators(s: Seq<char>, sep: char) -> spec_fn(int) -> bool {
    |i: int| s[i] == sep
}

/// No piece holds `sep`.
pub open spec fn free_of(pieces: Seq<Seq<char>>, sep: char) -> bool {
    forall|i: int, j: int|
        0 <= i < pieces.len() && 0 <= j < pieces[i].len() ==> #[trigger] pieces[i][j] != sep
}

/// Splitting the first `k` characters: the pieces, put together again, are
/// those characters; no piece holds the separator; and as many pieces are
/// closed as there are separators.
proof fn lemma_split_upto(s: Seq<char>, sep: char, k: int)
    requires
        0 <= k <= s.len(),
    ensures
        ({
            let (closed, open) = split_upto(s, sep, k);
            &&& joined(closed.push(open), sep) == s.take(k)
            &&& free_of(closed.push(open), sep)
            &&& closed.len() == count(k, separators(s, sep))
        }),
    decreases k,
{
    let (closed, open) = split_upto(s, sep, k);
    if k == 0 {
        assert(closed.push(open)[0] == open);
        assert(s.take(0) =~= Seq::<char>::empty());
    } else {
        lemma_split_upto(s, sep, k - 1);
        let (before, under_way) = split_upto(s, sep, k - 1);
        let c = s[k - 1];
        assert(s.take(k) =~= s.take(k - 1).push(c));
        assert(before.push(under_way).drop_last() =~= before);
        if c == sep {
            assert(closed.push(open).drop_last() =~= before.push(under_way));
            assert(joined(closed.push(open), sep) =~= s.take(k));
            assert forall|i: int, j: int|
                0 <= i < closed.push(open).len() && 0 <= j < closed.push(open)[i].len() implies
                #[trigger] closed.push(open)[i][j] != sep by {
                assert(closed.push(open)[i] == before.push(under_way)[i]);
            }
        } else {
            assert(closed.push(open).drop_last() =~= before);
            if before.len() == 0 {
                assert(joined(closed.push(open), sep) =~= s.take(k));
            } else {
                assert(joined(closed.push(open), sep) =~= joined(before.push(under_way), sep).push(
                    c,
                ));
            }
            assert forall|i: int, j: int|
                0 <= i < closed.push(open).len() && 0 <= j < closed.push(open)[i].len() implies
                #[trigger] closed.push(open)[i][j] != sep by {
                if i < before.len() {
                    assert(closed.push(open)[i] == before.push(under_way)[i]);
                } else if j < under_way.len() {
                    assert(closed.push(open)[i][j] == before.push(under_way)[i][j]);
                }
            }
        }
    }
}

/// What splitting is. The pieces of a text, put together again with the
/// separator between them, are the text. No piece holds the separator, and
/// there is one piece more than there are separators in the text.
pub proof fn lemma_split(s: Seq<char>, sep: char)
    ensures
        joined(split(s, sep), sep) == s,
        free_of(split(s, sep), sep),
        split(s, sep).len() == count(s.len() as int, separators(s, sep)) + 1,
{
    lemma_split_upto(s, sep, s.len() as int);
    assert(s.take(s.len() as int) =~= s);
}

/// Whether `c` is a decimal digit.
pub open spec fn is_digit(c: char) -> bool {
    '0' <= c <= '9'
}

/// The value of the decimal digit `c`.
pub open spec fn digit_value(c: char) -> nat {
    if is_digit(c) {
        (c as nat - '0' as nat) as nat
    } else {
        0
    }
}

/// The number that the digits of `s` denote in base ten.
pub open spec fn decimal_value(s: Seq<char>) -> nat
    decreases s.len(),
{
    if s.len() == 0 {
        0
    } else {
        decimal_value(s.drop_last()) * 10 + digit_value(s.last())
    }
}

/// The number that `s` denotes: `s` is one or more decimal digits, and
/// their value fits 64 bits.
pub open spec fn number_of(s: Seq<char>) -> Option<u64> {
    if s.len() > 0 && (forall|i: int| 0 <= i < s.len() ==> is_digit(#[trigger] s[i]))
        && decimal_value(s) <= u64::MAX {
        Some(decimal_value(s) as u64)
    } else {
        None
    }
}

/// The side that `s` names.
pub open spec fn side_of(s: Seq<char>) -> Option<Side> {
    if s == "Buy"@ {
        Some(Side::Buy)
    } else if s == "Sell"@ {
        Some(Side::Sell)
    } else {
        None
    }
}

/// The order type that `s` names.
pub open spec fn order_type_of(s: Seq<char>) -> Option<OrderType> {
    if s == "Limit"@ {
        Some(OrderType::Limit)
    } else if s == "Market"@ {
        Some(OrderType::Market)
    } else {
        None
    }
}

/// The order that a line describes, if the line has the form of an order.
/// The order carries no client identifier and has not arrived anywhere yet.
pub open spec fn order_of_line(line: Seq<char>) -> Option<OrderView> {
    let fields = split(line, ' ');
    if fields.len() == 5 && number_of(fields[0]).is_some() && number_of(fields[2]).is_some()
        && side_of(fields[3]).is_some() && order_type_of(fields[4]).is_some() {
        Some(
            OrderView {
                quantity: number_of(fields[0])->0 as nat,
                symbol: fields[1],
                price: number_of(fields[2])->0 as nat,
                side: side_of(fields[3])->0,
                order_type: order_type_of(fields[4])->0,
                client_order_id: Seq::empty(),
                sequence: 0,
            },
        )
    } else {
        None
    }
}

/// The book after a line has been read: if the line describes an order that
/// the book accepts, the order has arrived. Any other line changes nothing.
pub open spec fn ingest_line(b: BookView, line: Seq<char>) -> BookView {
    match order_of_line(line) {
        Some(o) => if o.acceptable() && b.next_sequence < u64::MAX {
            b.inserted(o)
        } else {
            b
        },
        None => b,
    }
}

/// The book after the first `k` of `lines` have been read into `b`, in order.
pub open spec fn ingest_lines(b: BookView, lines: Seq<Seq<char>>, k: int) -> BookView
    decreases k,
{
    if k <= 0 {
        b
    } else {
        ingest_line(ingest_lines(b, lines, k - 1), lines[k - 1])
    }
}

/// The book that a text describes: its lines, read into an empty book.
pub open spec fn ingested(text: Seq<char>) -> BookView {
    let lines = split(text, '\n');
    ingest_lines(
        BookView { bids: Seq::empty(), asks: Seq::empty(), next_sequence: 0 },
        lines,
        lines.len() as int,
    )
}

/// `String::push` of the standard library: appends one character to the
/// string. The contract says that the text of the string afterwards is its
/// text before with the character at the end.
#[verifier::external_body]
fn push_char(s: &mut String, c: char)
    ensures
        final(s)@ == old(s)@.push(c),
{
    s.push(c);
}

/// The value of a prefix of a digit string does not exceed the value of the
/// string.
proof fn lemma_decimal_prefix(s: Seq<char>, k: int)
    requires
        0 <= k <= s.len(),
    ensures
        decimal_value(s.take(k)) <= decimal_value(s),
    decreases s.len() - k,
{
    if k == s.len() {
        assert(s.take(k) =~= s);
    } else {
        lemma_decimal_prefix(s, k + 1);
        assert(s.take(k + 1).drop_last() =~= s.take(k));
    }
}

/// Splits `text` at every occurrence of `sep`.
pub fn split_text(text: &str, sep: char) -> (pieces: Vec<String>)
    ensures
        texts(pieces@) == split(text@, sep),
{
    let mut pieces: Vec<String> = Vec::new();
    let mut open = String::new();
    for c in it: text.chars()
        invariant
            it.seq() == text@,
            (texts(pieces@), open@) == split_upto(text@, sep, it.index() as int),
    {
        let ghost closed = texts(pieces@);
        if c == sep {
            pieces.push(open);
            open = String::new();
            assert(texts(pieces@) =~= closed.push(split_upto(text@, sep, it.index() as int).1));
        } else {
            push_char(&mut open, c);
        }
    }
    let ghost closed = texts(pieces@);
    pieces.push(open);
    assert(texts(pieces@) =~= closed.push(split_upto(text@, sep, text@.len() as int).1));
    pieces
}

/// Reads a decimal number.
pub fn parse_number(text: &str) -> (r: Option<u64>)
    ensures
        r == number_of(text@),
{
    let mut acc: u64 = 0;
    let mut any = false;
    for c in it: text.chars()
        invariant
            it.seq() == text@,
            forall|j: int| 0 <= j < it.index() ==> is_digit(#[trigger] text@[j]),
            acc == decimal_value(text@.take(it.index() as int)),
            any == (it.index() > 0),
    {
        if !(c >= '0' && c <= '9') {
            assert(!is_digit(text@[it.index() as int]));
            return None;
        }
        let d: u64 = c as u64 - '0' as u64;
        proof {
            assert(text@.take(it.index() + 1).drop_last() =~= text@.take(it.index() as int));
            lemma_decimal_prefix(text@, it.index() + 1);
        }
        if acc > (u64::MAX - d) / 10 {
            return None;
        }
        acc = acc * 10 + d;
        any = true;
    }
    assert(text@.take(text@.len() as int) =~= text@);
    if any {
        Some(acc)
    } else {
        None
    }
}

/// Reads the name of a side.
pub fn parse_side(text: &str) -> (r: Option<Side>)
    ensures
        r == side_of(text@),
{
    let given = String::from_str(text);
    if given == String::from_str("Buy") {
        Some(Side::Buy)
    } else if given == String::from_str("Sell") {
        Some(Side::Sell)
    } else {
        None
    }
}

/// Reads the name of an order type.
pub fn parse_order_type(text: &str) -> (r: Option<OrderType>)
    ensures
        r == order_type_of(text@),
{
    let given = String::from_str(text);
    if given == String::from_str("Limit") {
        Some(OrderType::Limit)
    } else if given == String::from_str("Market") {
        Some(OrderType::Market)
    } else {
        None
    }
}

/// Reads the order that a line describes.
pub fn create_order_from_string(line: &str) -> (r: Option<Order>)
    ensures
        match r {
            Some(o) => order_of_line(line@) == Some(o@),
            None => order_of_line(line@).is_none(),
        },
{
    let fields = split_text(line, ' ');
    assert(texts(fields@) == split(line@, ' '));
    if fields.len() != 5 {
        return None;
    }
    assert(forall|i: int| 0 <= i < 5 ==> fields[i]@ == #[trigger] texts(fields@)[i]);
    let quantity: u64 = match parse_number(fields[0].as_str()) {
        Some(q) => q,
        None => {
            return None;
        },
    };
    let price: u64 = match parse_number(fields[2].as_str()) {
        Some(p) => p,
        None => {
            return None;
        },
    };
    let side = match parse_side(fields[3].as_str()) {
        Some(s) => s,
        None => {
            return None;
        },
    };
    let order_type = match parse_order_type(fields[4].as_str()) {
        Some(t) => t,
        None => {
            return None;
        },
    };
    let symbol = fields[1].clone();
    Some(Order::new(quantity, symbol, price, side, order_type, String::new()))
}

/// Builds the resting book that a text describes.
pub fn create_order_book(text: &str) -> (book: OrderBook)
    ensures
        book@ == ingested(text@),
        book@.wf(),
{
    let lines = split_text(text, '\n');
    let ghost empty = BookView { bids: Seq::empty(), asks: Seq::empty(), next_sequence: 0 };
    let mut book = OrderBook::new();
    let mut i: usize = 0;
    while i < lines.len()
        invariant
            i <= lines.len(),
            texts(lines@) == split(text@, '\n'),
            book@.wf(),
            book@ == ingest_lines(empty, texts(lines@), i as int),
        decreases lines.len() - i,
    {
        assert(lines[i as int]@ == texts(lines@)[i as int]);
        match create_order_from_string(lines[i].as_str()) {
            Some(order) => {
                if book.next_sequence() < u64::MAX {
                    let _ = book.add_order(order);
                }
            },
            None => {},
        }
        i += 1;
    }
    book
}

} // verus!
