//! The canonical order record: what agents ask for (`OrderData`) and what
//! the book stores after admission (`Order`), together with the flattened
//! per-kind records (`LimitOrderData`, `MarketOrderData`).

use vstd::prelude::*;
use crate::amount::Amount;

verus! {

/// Largest price the book accepts for a limit order.  Together with
/// `MAX_ORDER_SIZE` this keeps every notional value (price times size)
/// comfortably inside `i64`, so matching and settlement never overflow.
pub const MAX_ORDER_PRICE: i64 = 1_000_000;

/// Largest size the book accepts for any order.
pub const MAX_ORDER_SIZE: i64 = 1_000_000;

/// The side of an order: a bid buys, an ask sells.
#[derive(Copy, Clone, Debug, Eq, Hash, PartialEq)]
pub enum OrderSide {
    Bid,
    Ask,
}

impl OrderSide {
    /// The opposite side.
    pub fn not(self) -> (r: Self)
        ensures
            self is Bid ==> r is Ask,
            self is Ask ==> r is Bid,
    {
        match self {
            OrderSide::Bid => OrderSide::Ask,
            OrderSide::Ask => OrderSide::Bid,
        }
    }
}

/// An order intent, as produced by an agent: a present price makes it a
/// limit order, an absent price a market order.
#[derive(Copy, Clone, Debug, PartialEq, Eq)]
pub struct OrderData {
    pub side: OrderSide,
    pub price: Option<Amount>,
    pub size: i64,
}

/// An intent the book admits: positive size and, if priced, a positive
/// price.  Anything else is silently dropped at admission.
pub open spec fn data_admissible(data: OrderData) -> bool {
    &&& data.size > 0
    &&& match data.price {
        Option::Some(p) => p.as_int > 0,
        Option::None => true,
    }
}

/// An admitted order: an intent plus the id and timestamp the book
/// assigned at admission.
#[derive(Copy, Clone, Debug, PartialEq, Eq)]
pub struct Order {
    pub timestamp: i64,
    pub id: u64,
    pub side: OrderSide,
    pub price: Option<Amount>,
    pub size: i64,
}

/// A limit order stripped of its side.
#[derive(Copy, Clone, Debug, PartialEq, Eq)]
pub struct LimitOrderData {
    pub timestamp: i64,
    pub id: u64,
    pub price: Amount,
    pub size: i64,
}

/// A market order stripped of its side.
#[derive(Copy, Clone, Debug, PartialEq, Eq)]
pub struct MarketOrderData {
    pub timestamp: i64,
    pub id: u64,
    pub size: i64,
}

impl Order {
    /// An order the book is willing to hold: positive size and, for a
    /// limit order, a positive price, both within the book's caps.
    pub open spec fn wf(self) -> bool {
        &&& 0 < self.size <= MAX_ORDER_SIZE
        &&& match self.price {
            Option::None => true,
            Option::Some(p) => 0 < p.as_int <= MAX_ORDER_PRICE,
        }
    }

    /// The flattened limit record, if this is a limit order.
    pub open spec fn spec_limit_data(self) -> Option<LimitOrderData> {
        match self.price {
            Option::Some(p) => Option::Some(
                LimitOrderData { timestamp: self.timestamp, id: self.id, price: p, size: self.size },
            ),
            Option::None => Option::None,
        }
    }

    /// The flattened market record, if this is a market order.
    pub open spec fn spec_market_data(self) -> Option<MarketOrderData> {
        match self.price {
            Option::None => Option::Some(
                MarketOrderData { timestamp: self.timestamp, id: self.id, size: self.size },
            ),
            Option::Some(_) => Option::None,
        }
    }

    /// Extracts the limit record of a priced order.
    pub fn limit_data(&self) -> (r: Option<LimitOrderData>)
        ensures
            r == self.spec_limit_data(),
    {
        match self.price {
            Option::Some(p) => Option::Some(
                LimitOrderData { timestamp: self.timestamp, id: self.id, price: p, size: self.size },
            ),
            Option::None => Option::None,
        }
    }

    /// Extracts the market record of an unpriced order.
    pub fn market_data(&self) -> (r: Option<MarketOrderData>)
        ensures
            r == self.spec_market_data(),
    {
        match self.price {
            Option::None => Option::Some(
                MarketOrderData { timestamp: self.timestamp, id: self.id, size: self.size },
            ),
            Option::Some(_) => Option::None,
        }
    }

    /// Forgets the id and timestamp, leaving the intent.
    pub fn to_data(&self) -> (r: OrderData)
        ensures
            r == (OrderData { side: self.side, price: self.price, size: self.size }),
    {
        OrderData { side: self.side, price: self.price, size: self.size }
    }
}

impl LimitOrderData {
    /// The full order record on the given side.
    pub open spec fn spec_to_order(&self, side: OrderSide) -> Order {
        Order {
            timestamp: self.timestamp,
            id: self.id,
            side,
            price: Option::Some(self.price),
            size: self.size,
        }
    }

    /// Rebuilds the full order record on the given side.
    #[verifier::when_used_as_spec(spec_to_order)]
    pub fn to_order(&self, side: OrderSide) -> (r: Order)
        ensures
            r == self.spec_to_order(side),
    {
        Order {
            timestamp: self.timestamp,
            id: self.id,
            side,
            price: Option::Some(self.price),
            size: self.size,
        }
    }
}

impl MarketOrderData {
    /// The full order record on the given side.
    pub open spec fn spec_to_order(&self, side: OrderSide) -> Order {
        Order { timestamp: self.timestamp, id: self.id, side, price: Option::None, size: self.size }
    }

    /// Rebuilds the full order record on the given side.
    #[verifier::when_used_as_spec(spec_to_order)]
    pub fn to_order(&self, side: OrderSide) -> (r: Order)
        ensures
            r == self.spec_to_order(side),
    {
        Order { timestamp: self.timestamp, id: self.id, side, price: Option::None, size: self.size }
    }
}

} // verus!

verus! {

/// The byte is an ASCII decimal digit.
pub open spec fn is_digit(b: u8) -> bool {
    48 <= b <= 57
}

/// A non-empty run of ASCII digits.
pub open spec fn is_digits(s: Seq<u8>) -> bool {
    s.len() > 0 && forall|i: int| 0 <= i < s.len() ==> is_digit(#[trigger] s[i])
}

/// The number a run of digits denotes.
pub open spec fn digits_val(s: Seq<u8>) -> int
    decreases s.len(),
{
    if s.len() == 0 {
        0
    } else {
        digits_val(s.drop_last()) * 10 + (s.last() - 48)
    }
}

/// The index of the first colon at or after `i`, or the length.
pub open spec fn next_colon(s: Seq<u8>, i: int) -> int
    decreases s.len() - i,
{
    if i < 0 || i >= s.len() {
        s.len() as int
    } else if s[i] == 58 {
        i
    } else {
        next_colon(s, i + 1)
    }
}

/// The side a side letter denotes: `A` asks, `B` bids.
pub open spec fn side_of(b: u8) -> Option<OrderSide> {
    if b == 65 {
        Option::Some(OrderSide::Ask)
    } else if b == 66 {
        Option::Some(OrderSide::Bid)
    } else {
        Option::None
    }
}

/// What the test-vector order format denotes: `<side>:<price>:<size>` for
/// a limit order, `<side>:<size>` for a market order, with `A` for ask and
/// `B` for bid and both numbers runs of digits that fit the machine's
/// signed range.  Anything else denotes nothing.
pub open spec fn spec_parse_order(s: Seq<u8>) -> Option<OrderData> {
    if s.len() < 2 || next_colon(s, 0) != 1 || side_of(s[0]) is None {
        Option::None
    } else {
        let side = side_of(s[0])->Some_0;
        let c2 = next_colon(s, 2);
        if c2 == s.len() {
            let digits = s.subrange(2, s.len() as int);
            if is_digits(digits) && digits_val(digits) <= i64::MAX {
                Option::Some(
                    OrderData { side, price: Option::None, size: digits_val(digits) as i64 },
                )
            } else {
                Option::None
            }
        } else {
            let price_digits = s.subrange(2, c2);
            let size_digits = s.subrange(c2 + 1, s.len() as int);
            if next_colon(s, c2 + 1) == s.len() && is_digits(price_digits) && digits_val(
                price_digits,
            ) <= i64::MAX && is_digits(size_digits) && digits_val(size_digits) <= i64::MAX {
                Option::Some(
                    OrderData {
                        side,
                        price: Option::Some(Amount { as_int: digits_val(price_digits) as i64 }),
                        size: digits_val(size_digits) as i64,
                    },
                )
            } else {
                Option::None
            }
        }
    }
}

/// Digit values never shrink as digits are appended.
proof fn lemma_digits_val_nonneg(s: Seq<u8>)
    requires
        forall|i: int| 0 <= i < s.len() ==> is_digit(#[trigger] s[i]),
    ensures
        digits_val(s) >= 0,
    decreases s.len(),
{
    if s.len() > 0 {
        assert forall|i: int| 0 <= i < s.len() - 1 implies is_digit(#[trigger] s.drop_last()[i]) by {
            assert(is_digit(s[i]));
        }
        lemma_digits_val_nonneg(s.drop_last());
        assert(is_digit(s[s.len() - 1]));
        assert(digits_val(s.drop_last()) * 10 >= digits_val(s.drop_last())) by (nonlinear_arith)
            requires
                digits_val(s.drop_last()) >= 0,
        ;
    }
}

/// A digit prefix denotes no more than the whole run.
proof fn lemma_digits_val_prefix(s: Seq<u8>, i: int)
    requires
        0 <= i <= s.len(),
        forall|k: int| 0 <= k < s.len() ==> is_digit(#[trigger] s[k]),
    ensures
        digits_val(s.subrange(0, i)) <= digits_val(s),
    decreases s.len() - i,
{
    if i == s.len() {
        assert(s.subrange(0, i) =~= s);
    } else {
        lemma_digits_val_prefix(s, i + 1);
        let p = s.subrange(0, i);
        let q = s.subrange(0, i + 1);
        assert(q.drop_last() =~= p);
        assert(q.last() == s[i]);
        assert forall|k: int| 0 <= k < p.len() implies is_digit(#[trigger] p[k]) by {
            assert(is_digit(s[k]));
        }
        lemma_digits_val_nonneg(p);
        assert(is_digit(s[i]));
        assert(digits_val(p) * 10 >= digits_val(p)) by (nonlinear_arith)
            requires
                digits_val(p) >= 0,
        ;
    }
}

/// Reads the number a run of digits denotes, or nothing when the run is
/// empty, holds a non-digit, or denotes more than the machine's range.
fn parse_number(s: &[u8], from: usize, to: usize) -> (r: Option<i64>)
    requires
        from <= to <= s@.len(),
    ensures
        ({
            let digits = s@.subrange(from as int, to as int);
            if is_digits(digits) && digits_val(digits) <= i64::MAX {
                r == Option::Some(digits_val(digits) as i64)
            } else {
                r is None
            }
        }),
{
    let ghost digits = s@.subrange(from as int, to as int);
    if from == to {
        return Option::None;
    }
    let mut val: i64 = 0;
    let mut i: usize = from;
    while i < to
        invariant
            from <= i <= to <= s@.len(),
            digits == s@.subrange(from as int, to as int),
            forall|k: int| from <= k < i ==> is_digit(#[trigger] s@[k]),
            val == digits_val(s@.subrange(from as int, i as int)),
            val >= 0,
        decreases to - i,
    {
        let b = s[i];
        if b < 48 || b > 57 {
            proof {
                assert(digits[i - from] == s@[i as int]);
            }
            return Option::None;
        }
        let ghost pre = s@.subrange(from as int, i as int);
        proof {
            assert(s@.subrange(from as int, i as int + 1).drop_last() =~= pre);
            assert(s@.subrange(from as int, i as int + 1).last() == s@[i as int]);
        }
        let d = (b - 48) as i64;
        if val > (i64::MAX - d) / 10 {
            proof {
                let full = s@.subrange(from as int, to as int);
                if is_digits(full) {
                    assert forall|k: int|
                        0 <= k < full.len() implies is_digit(#[trigger] full[k]) by {}
                    assert(digits_val(s@.subrange(from as int, i as int + 1)) > i64::MAX) by {
                        assert(val * 10 + d > i64::MAX) by (nonlinear_arith)
                            requires
                                val > (i64::MAX - d) / 10,
                                val >= 0,
                                0 <= d <= 9,
                                i64::MAX == 0x7fff_ffff_ffff_ffff,
                        ;
                    }
                    assert forall|k: int|
                        0 <= k < full.len() implies is_digit(#[trigger] full[k]) by {}
                    assert(full.subrange(0, i - from + 1) =~= s@.subrange(
                        from as int,
                        i as int + 1,
                    ));
                    lemma_digits_val_prefix(full, i - from + 1);
                }
            }
            return Option::None;
        }
        val = val * 10 + d;
        i = i + 1;
    }
    proof {
        assert(s@.subrange(from as int, to as int) =~= digits);
        assert forall|k: int| 0 <= k < digits.len() implies is_digit(#[trigger] digits[k]) by {
            assert(is_digit(s@[from + k]));
        }
    }
    Option::Some(val)
}

impl OrderData {
    /// Reads a test-vector order: `<side>:<price>:<size>` for a limit
    /// order, `<side>:<size>` for a market order, `A` asking and `B`
    /// bidding.  Malformed text yields nothing.
    pub fn parse(input: &[u8]) -> (r: Option<OrderData>)
        ensures
            r == spec_parse_order(input@),
    {
        let n = input.len();
        // the side letter and its colon
        if n < 2 {
            return Option::None;
        }
        if input[1] != 58 {
            proof {
                if input@[0] == 58 {
                    lemma_next_colon_found(input@, 0, 0);
                } else {
                    assert(next_colon(input@, 0) == next_colon(input@, 1));
                    if next_colon(input@, 1) == 1 {
                        if input@[1] != 58 {
                            lemma_next_colon_range(input@, 2);
                        }
                        assert(input@[1] == 58);
                    }
                }
            }
            return Option::None;
        }
        let side = if input[0] == 65 {
            OrderSide::Ask
        } else if input[0] == 66 {
            OrderSide::Bid
        } else {
            return Option::None;
        };
        proof {
            lemma_next_colon_found(input@, 0, 1);
        }
        // the second colon, if any
        let mut c2: usize = 2;
        while c2 < n && input[c2] != 58
            invariant
                2 <= c2 <= n,
                n == input@.len(),
                forall|k: int| 2 <= k < c2 ==> input@[k] != 58,
            decreases n - c2,
        {
            c2 = c2 + 1;
        }
        proof {
            lemma_next_colon_found(input@, 2, c2 as int);
        }
        if c2 == n {
            match parse_number(input, 2, n) {
                Option::Some(size) => Option::Some(
                    OrderData { side, price: Option::None, size },
                ),
                Option::None => Option::None,
            }
        } else {
            let mut c3: usize = c2 + 1;
            while c3 < n && input[c3] != 58
                invariant
                    c2 + 1 <= c3 <= n,
                    n == input@.len(),
                    forall|k: int| c2 + 1 <= k < c3 ==> input@[k] != 58,
                decreases n - c3,
            {
                c3 = c3 + 1;
            }
            proof {
                lemma_next_colon_found(input@, c2 as int + 1, c3 as int);
            }
            if c3 != n {
                return Option::None;
            }
            match parse_number(input, 2, c2) {
                Option::Some(price) => {
                    match parse_number(input, c2 + 1, n) {
                        Option::Some(size) => Option::Some(
                            OrderData { side, price: Option::Some(Amount { as_int: price }), size },
                        ),
                        Option::None => Option::None,
                    }
                },
                Option::None => Option::None,
            }
        }
    }
}

/// The first colon at or after `i` is at or after `i`.
proof fn lemma_next_colon_range(s: Seq<u8>, i: int)
    requires
        0 <= i <= s.len(),
    ensures
        i <= next_colon(s, i) <= s.len(),
    decreases s.len() - i,
{
    if i < s.len() && s[i] != 58 {
        lemma_next_colon_range(s, i + 1);
    }
}

/// A scan that stops at the first colon computes `next_colon`.
proof fn lemma_next_colon_found(s: Seq<u8>, from: int, found: int)
    requires
        0 <= from <= found <= s.len(),
        forall|k: int| from <= k < found ==> s[k] != 58,
        found < s.len() ==> s[found] == 58,
    ensures
        next_colon(s, from) == if found < s.len() {
            found
        } else {
            s.len() as int
        },
    decreases found - from,
{
    if from < found {
        lemma_next_colon_found(s, from + 1, found);
    }
}

} // verus!
