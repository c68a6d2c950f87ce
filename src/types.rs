//! The domain values that the matcher, the ledger and the peers exchange.

use vstd::prelude::*;
use vstd::string::StringSliceAdditionalSpecFns;

verus! {

/// Identifier of a node (shard).
pub type NodeID = usize;

/// An amount of money in cents.
pub type CentCount = u64;

/// The symbol of a stock.
pub type Ticker = String;

/// A number of shares.
pub type Quantity = u64;

/// Identifier of a cross-node trade awaiting the remote side's answer.
pub type TradeID = usize;

/// A globally unique account: its number on its node and that node.
#[derive(Clone, Copy, PartialEq, Eq, Structural, Debug, Hash)]
pub struct UserID {
    pub id: usize,
    pub node_id: NodeID,
}

#[derive(Clone, Copy, PartialEq, Eq, Structural, Debug, Hash)]
pub enum OrderType {
    Buy,
    Sell,
}

impl OrderType {
    /// The side that an order of this side trades against.
    pub fn opposite(self) -> (r: OrderType)
        ensures
            r != self,
    {
        match self {
            OrderType::Buy => OrderType::Sell,
            OrderType::Sell => OrderType::Buy,
        }
    }
}

/// What a client asks to place or cancel, before the owner is attached.
#[derive(Clone, Debug, PartialEq, Eq)]
pub struct OrderReq {
    pub order_type: OrderType,
    pub ticker: Ticker,
    pub price: CentCount,
    pub quantity: Quantity,
}

/// A limit order of a given owner.
#[derive(Clone, Debug, PartialEq, Eq)]
pub struct Order {
    pub order_type: OrderType,
    pub ticker: Ticker,
    pub user_id: UserID,
    pub quantity: Quantity,
    pub price: CentCount,
}

impl Order {
    pub fn duplicate(&self) -> (r: Order)
        ensures
            r == *self,
    {
        Order {
            order_type: self.order_type,
            ticker: self.ticker.clone(),
            user_id: self.user_id,
            quantity: self.quantity,
            price: self.price,
        }
    }
}

/// A match proposed by the matcher. `price` is the execution price: the price
/// of the order that was resting in the book. Both limit prices are kept.
#[derive(Clone, Debug, PartialEq, Eq)]
pub struct Trade {
    pub quantity: Quantity,
    pub price: CentCount,
    pub ticker: Ticker,
    pub buyer_id: UserID,
    pub seller_id: UserID,
    pub buy_price: CentCount,
    pub sell_price: CentCount,
}

impl Trade {
    pub fn duplicate(&self) -> (r: Trade)
        ensures
            r == *self,
    {
        Trade {
            quantity: self.quantity,
            price: self.price,
            ticker: self.ticker.clone(),
            buyer_id: self.buyer_id,
            seller_id: self.seller_id,
            buy_price: self.buy_price,
            sell_price: self.sell_price,
        }
    }

    /// The execution price lies between the two limits, as the matcher makes it.
    pub open spec fn well_priced(&self) -> bool {
        self.sell_price <= self.price <= self.buy_price
    }

    /// The money that changes hands.
    pub open spec fn cost(&self) -> int {
        self.price * self.quantity
    }
}

/// One price level of a market-depth or order listing.
#[derive(Clone, Copy, Debug, PartialEq, Eq)]
pub struct QuantityPrice {
    pub quantity: u64,
    pub price: u64,
}

/// The buy and the sell levels of one ticker.
#[derive(Clone, Debug, PartialEq, Eq)]
pub struct BuySell {
    pub buy: Vec<QuantityPrice>,
    pub sell: Vec<QuantityPrice>,
}

/// Levels of every ticker, one entry per ticker.
#[derive(Clone, Debug, PartialEq, Eq)]
pub struct AllOrders(pub Vec<(String, BuySell)>);

/// The text is not of the form `<node_id>.<id>`.
#[derive(Clone, Copy, Debug, PartialEq, Eq)]
pub struct InvalidUserIDError;

/// Whether `b` is an ASCII decimal digit.
pub open spec fn is_digit(b: u8) -> bool {
    48 <= b <= 57
}

/// Whether every byte of `s` is a decimal digit.
pub open spec fn all_digits(s: Seq<u8>) -> bool {
    forall|i: int| 0 <= i < s.len() ==> is_digit(#[trigger] s[i])
}

/// The value of a string of decimal digits.
pub open spec fn digits_value(s: Seq<u8>) -> nat
    decreases s.len(),
{
    if s.len() == 0 {
        0
    } else {
        digits_value(s.drop_last()) * 10 + (s.last() - 48) as nat
    }
}

/// The unsigned number that `s` writes: an optional `+`, then one digit or
/// more, with a value that fits in `usize`.
pub open spec fn number_text(s: Seq<u8>) -> Option<usize> {
    let d = if s.len() > 0 && s[0] == 43 { s.drop_first() } else { s };
    if d.len() > 0 && all_digits(d) && digits_value(d) <= usize::MAX {
        Some(digits_value(d) as usize)
    } else {
        None
    }
}

/// The account that `s` writes as `<node_id>.<id>`, split at the first dot.
pub open spec fn user_id_text(s: Seq<u8>) -> Option<UserID> {
    if exists|k: int| 0 <= k < s.len() && s[k] == 46 {
        let k = choose|k: int| 0 <= k < s.len() && s[k] == 46 && forall|j: int| 0 <= j < k ==> s[j] != 46;
        match (number_text(s.take(k)), number_text(s.skip(k + 1))) {
            (Some(node_id), Some(id)) => Some(UserID { id, node_id }),
            _ => None,
        }
    } else {
        None
    }
}

proof fn lemma_digits_push(s: Seq<u8>, b: u8)
    ensures
        digits_value(s.push(b)) == digits_value(s) * 10 + (b - 48) as nat,
{
    assert(s.push(b).drop_last() =~= s);
}

/// Reads the number written in `b[start..end]`.
fn parse_number(b: &[u8], start: usize, end: usize) -> (r: Option<usize>)
    requires
        start <= end <= b@.len(),
    ensures
        r == number_text(b@.subrange(start as int, end as int)),
{
    let ghost s = b@.subrange(start as int, end as int);
    let mut i = start;
    if i < end && b[i] == 43u8 {
        i = i + 1;
    }
    let ghost d = if s.len() > 0 && s[0] == 43 { s.drop_first() } else { s };
    assert(d =~= b@.subrange(i as int, end as int));
    assert(number_text(s) == if d.len() > 0 && all_digits(d) && digits_value(d) <= usize::MAX {
        Some(digits_value(d) as usize)
    } else {
        None
    });
    if i == end {
        return None;
    }
    let first = i;
    while i < end
        invariant
            first <= i <= end <= b@.len(),
            d =~= b@.subrange(first as int, end as int),
            number_text(b@.subrange(start as int, end as int)) == if d.len() > 0 && all_digits(d)
                && digits_value(d) <= usize::MAX {
                Some(digits_value(d) as usize)
            } else {
                None
            },
            forall|j: int| first <= j < i ==> is_digit(#[trigger] b@[j]),
        decreases end - i,
    {
        let c = b[i];
        if c < 48u8 || c > 57u8 {
            assert(d[i - first] == c);
            assert(!is_digit(d[i - first]));
            assert(!all_digits(d));
            return None;
        }
        i = i + 1;
    }
    assert forall|j: int| 0 <= j < d.len() implies is_digit(#[trigger] d[j]) by {
        assert(d[j] == b@[first + j]);
    }
    i = first;
    let mut v: usize = 0;
    while i < end
        invariant
            first <= i <= end <= b@.len(),
            d =~= b@.subrange(first as int, end as int),
            number_text(b@.subrange(start as int, end as int)) == if d.len() > 0 && all_digits(d)
                && digits_value(d) <= usize::MAX {
                Some(digits_value(d) as usize)
            } else {
                None
            },
            forall|j: int| 0 <= j < d.len() ==> is_digit(#[trigger] d[j]),
            v == digits_value(d.take(i - first)),
        decreases end - i,
    {
        let c = b[i];
        proof {
            assert(d.take(i + 1 - first) =~= d.take(i - first).push(c));
            lemma_digits_push(d.take(i - first), c);
            lemma_digits_prefix_bound(d, i + 1 - first);
            assert(is_digit(d[i - first]));
        }
        match v.checked_mul(10) {
            Some(m) => match m.checked_add((c - 48u8) as usize) {
                Some(n) => {
                    v = n;
                },
                None => {
                    assert(digits_value(d) > usize::MAX);
                    return None;
                },
            },
            None => {
                assert(digits_value(d) > usize::MAX);
                return None;
            },
        }
        i = i + 1;
    }
    assert(d.take(i - first) =~= d);
    Some(v)
}

/// The value of a digit string is at least that of each of its prefixes.
proof fn lemma_digits_prefix_bound(d: Seq<u8>, n: int)
    requires
        0 <= n <= d.len(),
        forall|i: int| 0 <= i < d.len() ==> is_digit(#[trigger] d[i]),
    ensures
        digits_value(d.take(n)) <= digits_value(d),
    decreases d.len(),
{
    if n < d.len() {
        assert(d.drop_last().take(n) =~= d.take(n));
        assert forall|i: int| 0 <= i < d.drop_last().len() implies is_digit(#[trigger] d.drop_last()[i]) by {
            assert(d.drop_last()[i] == d[i]);
        }
        lemma_digits_prefix_bound(d.drop_last(), n);
    } else {
        assert(d.take(n) =~= d);
    }
}

impl UserID {
    /// Reads an account written as `<node_id>.<id>`.
    pub fn from_str(s: &str) -> (r: Result<UserID, InvalidUserIDError>)
        ensures
            match user_id_text(s.spec_bytes()) {
                Some(u) => r == Ok::<UserID, InvalidUserIDError>(u),
                None => r is Err,
            },
    {
        let b = s.as_bytes();
        let mut k: usize = 0;
        while k < b.len() && b[k] != 46u8
            invariant
                k <= b@.len(),
                forall|j: int| 0 <= j < k ==> b@[j] != 46,
            decreases b@.len() - k,
        {
            k = k + 1;
        }
        if k == b.len() {
            return Err(InvalidUserIDError);
        }
        proof {
            let kk = choose|kk: int| 0 <= kk < b@.len() && b@[kk] == 46 && forall|j: int| 0 <= j < kk ==> b@[j] != 46;
            assert(kk == k as int) by {
                if kk < k as int {
                    assert(b@[kk] != 46);
                } else if kk > k as int {
                    assert(b@[k as int] != 46);
                }
            }
            assert(b@.take(k as int) =~= b@.subrange(0, k as int));
            assert(b@.skip(k + 1) =~= b@.subrange(k + 1, b@.len() as int));
        }
        let node_id = parse_number(b, 0, k);
        let id = parse_number(b, k + 1, b.len());
        match (node_id, id) {
            (Some(node_id), Some(id)) => Ok(UserID { id, node_id }),
            _ => Err(InvalidUserIDError),
        }
    }
}

} // verus!
