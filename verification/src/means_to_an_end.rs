//! The "means to an end" protocol: a per-connection time-series price
//! database driven by fixed 9-byte binary messages.
//!
//! A message is one tag byte (`'I'` or `'Q'`) followed by two big-endian
//! signed 32-bit integers. `Insert` records a price at a timestamp
//! (last write wins); `Query` answers with the truncated integer mean of
//! the prices in an inclusive timestamp range, as 4 big-endian bytes.

use vstd::prelude::*;

verus! {

use vstd::arithmetic::div_mod::{
    lemma_div_is_ordered,
    lemma_div_multiples_vanish,
    lemma_div_nonincreasing,
    lemma_div_pos_is_pos,
};
use vstd::arithmetic::mul::lemma_mul_is_distributive_add;
use vstd::seq_lib::group_filter_ensures;
use vstd::set_lib::{lemma_int_range, lemma_len_subset, set_int_range};

/// The ASCII tag byte `'I'` that opens an insert message.
pub const TAG_INSERT: u8 = 73;

/// The ASCII tag byte `'Q'` that opens a query message.
pub const TAG_QUERY: u8 = 81;

/// Errors of the wire codec.
#[derive(Debug, PartialEq, Eq, Structural, Copy, Clone)]
pub enum MeansToAnEndError {
    /// The tag byte of a message was neither `'I'` nor `'Q'`.
    InvalidMessageType,
    /// Never returned: a defensive variant for a state the codec
    /// cannot reach.
    NotPossible,
}

/// One decoded protocol message.
#[derive(Debug, PartialEq, Eq, Structural, Copy, Clone)]
pub enum Message {
    Insert { timestamp: i32, price: i32 },
    Query { mintime: i32, maxtime: i32 },
}

/// The two's-complement reinterpretation of an `i32` as a `u32`.
pub open spec fn u32_of_i32(x: i32) -> u32 {
    if x >= 0 {
        x as u32
    } else {
        (x + 0x1_0000_0000) as u32
    }
}

/// The two's-complement reinterpretation of a `u32` as an `i32`.
pub open spec fn i32_of_u32(u: u32) -> i32 {
    if u < 0x8000_0000 {
        u as i32
    } else {
        (u - 0x1_0000_0000) as i32
    }
}

/// The four big-endian bytes of a `u32`, most significant first.
pub open spec fn be_bytes_of_u32(u: u32) -> Seq<u8> {
    seq![
        (u >> 24) as u8,
        ((u >> 16) & 0xff) as u8,
        ((u >> 8) & 0xff) as u8,
        (u & 0xff) as u8,
    ]
}

/// The `u32` read from four big-endian bytes.
pub open spec fn u32_of_be_bytes(b0: u8, b1: u8, b2: u8, b3: u8) -> u32 {
    ((b0 as u32) << 24) | ((b1 as u32) << 16) | ((b2 as u32) << 8) | (b3 as u32)
}

/// The four big-endian bytes of an `i32` in two's complement.
pub open spec fn be_bytes_of_i32(x: i32) -> Seq<u8> {
    be_bytes_of_u32(u32_of_i32(x))
}

/// The `i32` read from four big-endian two's-complement bytes.
pub open spec fn i32_of_be_bytes(b0: u8, b1: u8, b2: u8, b3: u8) -> i32 {
    i32_of_u32(u32_of_be_bytes(b0, b1, b2, b3))
}

/// The 9 wire bytes of a message: the tag, then the two integers.
pub open spec fn encode_spec(m: Message) -> Seq<u8> {
    match m {
        Message::Insert { timestamp, price } => seq![TAG_INSERT] + be_bytes_of_i32(timestamp)
            + be_bytes_of_i32(price),
        Message::Query { mintime, maxtime } => seq![TAG_QUERY] + be_bytes_of_i32(mintime)
            + be_bytes_of_i32(maxtime),
    }
}

/// The message held in 9 wire bytes, or an error when the tag is unknown.
pub open spec fn decode_spec(b: Seq<u8>) -> Result<Message, MeansToAnEndError>
    recommends
        b.len() == 9,
{
    if b[0] == TAG_INSERT {
        Ok(
            Message::Insert {
                timestamp: i32_of_be_bytes(b[1], b[2], b[3], b[4]),
                price: i32_of_be_bytes(b[5], b[6], b[7], b[8]),
            },
        )
    } else if b[0] == TAG_QUERY {
        Ok(
            Message::Query {
                mintime: i32_of_be_bytes(b[1], b[2], b[3], b[4]),
                maxtime: i32_of_be_bytes(b[5], b[6], b[7], b[8]),
            },
        )
    } else {
        Err(MeansToAnEndError::InvalidMessageType)
    }
}

proof fn lemma_u32_be_bytes_round_trip(u: u32)
    by (bit_vector)
    ensures
        (((u >> 24) as u8 as u32) << 24) | ((((u >> 16) & 0xff) as u8 as u32) << 16) | ((((u >> 8)
            & 0xff) as u8 as u32) << 8) | ((u & 0xff) as u8 as u32) == u,
        (u >> 24) < 256,
        ((u >> 16) & 0xff) < 256,
        ((u >> 8) & 0xff) < 256,
        (u & 0xff) < 256,
{
}

proof fn lemma_i32_u32_round_trip(x: i32)
    ensures
        i32_of_u32(u32_of_i32(x)) == x,
{
}

/// The big-endian encoding of an `i32` decodes back to the same value.
pub proof fn lemma_i32_be_bytes_round_trip(x: i32)
    ensures
        ({
            let b = be_bytes_of_i32(x);
            i32_of_be_bytes(b[0], b[1], b[2], b[3]) == x
        }),
{
    let u = u32_of_i32(x);
    lemma_u32_be_bytes_round_trip(u);
    lemma_i32_u32_round_trip(x);
}

impl Message {
    /// Serializes this message into its 9 wire bytes.
    pub fn to_network_bytes(&self) -> (r: [u8; 9])
        ensures
            r@ == encode_spec(*self),
    {
        match self {
            Message::Insert { timestamp, price } => {
                let t = Message::i32_to_network_bytes(*timestamp);
                let p = Message::i32_to_network_bytes(*price);
                let r = [TAG_INSERT, t[0], t[1], t[2], t[3], p[0], p[1], p[2], p[3]];
                assert(r@ =~= encode_spec(*self));
                r
            },
            Message::Query { mintime, maxtime } => {
                let t = Message::i32_to_network_bytes(*mintime);
                let p = Message::i32_to_network_bytes(*maxtime);
                let r = [TAG_QUERY, t[0], t[1], t[2], t[3], p[0], p[1], p[2], p[3]];
                assert(r@ =~= encode_spec(*self));
                r
            },
        }
    }

    /// Deserializes 9 wire bytes, rejecting an unknown tag byte.
    pub fn from_network_bytes(bytes: [u8; 9]) -> (r: Result<Message, MeansToAnEndError>)
        ensures
            r == decode_spec(bytes@),
    {
        let first = Message::i32_from_network_bytes(bytes[1], bytes[2], bytes[3], bytes[4]);
        let second = Message::i32_from_network_bytes(bytes[5], bytes[6], bytes[7], bytes[8]);
        if bytes[0] == TAG_INSERT {
            Ok(Message::Insert { timestamp: first, price: second })
        } else if bytes[0] == TAG_QUERY {
            Ok(Message::Query { mintime: first, maxtime: second })
        } else {
            Err(MeansToAnEndError::InvalidMessageType)
        }
    }

    /// Network byte order is big endian: most significant byte first.
    pub fn i32_to_network_bytes(an_i32: i32) -> (r: [u8; 4])
        ensures
            r@ == be_bytes_of_i32(an_i32),
    {
        let u: u32 = if an_i32 >= 0 {
            an_i32 as u32
        } else {
            ((an_i32 as i64) + 0x1_0000_0000i64) as u32
        };
        assert(u == u32_of_i32(an_i32));
        proof {
            lemma_u32_be_bytes_round_trip(u);
        }
        let r = [(u >> 24) as u8, ((u >> 16) & 0xff) as u8, ((u >> 8) & 0xff) as u8, (u
            & 0xff) as u8];
        assert(r@ =~= be_bytes_of_u32(u));
        r
    }

    /// Reads an `i32` from four bytes in network (big-endian) order.
    pub fn i32_from_network_bytes(b0: u8, b1: u8, b2: u8, b3: u8) -> (r: i32)
        ensures
            r == i32_of_be_bytes(b0, b1, b2, b3),
    {
        let u: u32 = ((b0 as u32) << 24) | ((b1 as u32) << 16) | ((b2 as u32) << 8) | (b3 as u32);
        if u < 0x8000_0000 {
            u as i32
        } else {
            ((u as i64) - 0x1_0000_0000i64) as i32
        }
    }
}

/// Round trip: decoding the encoding of any valid message gives it back.
pub proof fn lemma_message_round_trip(m: Message)
    ensures
        decode_spec(encode_spec(m)) == Ok::<Message, MeansToAnEndError>(m),
{
    match m {
        Message::Insert { timestamp, price } => {
            lemma_i32_be_bytes_round_trip(timestamp);
            lemma_i32_be_bytes_round_trip(price);
        },
        Message::Query { mintime, maxtime } => {
            lemma_i32_be_bytes_round_trip(mintime);
            lemma_i32_be_bytes_round_trip(maxtime);
        },
    }
}

/// One stored record: the price of the asset at a timestamp.
#[derive(Debug, PartialEq, Eq, Structural, Copy, Clone)]
pub struct AssetPrice {
    pub timestamp: i32,
    pub price: i32,
}

/// Well-formedness of a database: no two records share a timestamp.
pub open spec fn ts_unique(s: Seq<AssetPrice>) -> bool {
    forall|i: int, j: int|
        0 <= i < j < s.len() ==> s[i].timestamp != s[j].timestamp
}

/// Whether a timestamp lies in the inclusive range `[mintime, maxtime]`.
pub open spec fn in_range(t: i32, mintime: i32, maxtime: i32) -> bool {
    mintime <= t && t <= maxtime
}

/// The predicate that an insert at `timestamp` keeps a record.
pub open spec fn keeps(timestamp: i32) -> spec_fn(AssetPrice) -> bool {
    |p: AssetPrice| p.timestamp != timestamp
}

/// The sum of the prices of the records whose timestamps lie in the range.
pub open spec fn sum_in_range(s: Seq<AssetPrice>, mintime: i32, maxtime: i32) -> int
    decreases s.len(),
{
    if s.len() == 0 {
        0
    } else {
        sum_in_range(s.drop_last(), mintime, maxtime) + (if in_range(
            s.last().timestamp,
            mintime,
            maxtime,
        ) {
            s.last().price as int
        } else {
            0
        })
    }
}

/// How many records have a timestamp in the range.
pub open spec fn count_in_range(s: Seq<AssetPrice>, mintime: i32, maxtime: i32) -> int
    decreases s.len(),
{
    if s.len() == 0 {
        0
    } else {
        count_in_range(s.drop_last(), mintime, maxtime) + (if in_range(
            s.last().timestamp,
            mintime,
            maxtime,
        ) {
            1int
        } else {
            0int
        })
    }
}

/// Integer division truncating toward zero, as Rust's `/` behaves on
/// machine integers (spec-mode `/` is Euclidean and differs below zero).
pub open spec fn div_toward_zero(a: int, b: int) -> int
    recommends
        b > 0,
{
    if a >= 0 {
        a / b
    } else {
        -((-a) / b)
    }
}

/// The answer to a query: `0` when the range is inverted or holds no
/// record, otherwise the truncated mean of the prices in the range.
pub open spec fn query_spec(s: Seq<AssetPrice>, mintime: i32, maxtime: i32) -> int {
    if maxtime < mintime {
        0
    } else if count_in_range(s, mintime, maxtime) == 0 {
        0
    } else {
        div_toward_zero(sum_in_range(s, mintime, maxtime), count_in_range(s, mintime, maxtime))
    }
}

/// The database after an insert: the record at `timestamp`, if any, is
/// dropped, and the new record is appended (last write wins).
pub open spec fn insert_spec(s: Seq<AssetPrice>, timestamp: i32, price: i32) -> Seq<AssetPrice> {
    s.filter(keeps(timestamp)).push(AssetPrice { timestamp, price })
}

proof fn lemma_filter_keeps_all(s: Seq<AssetPrice>, timestamp: i32)
    requires
        forall|k: int| 0 <= k < s.len() ==> s[k].timestamp != timestamp,
    ensures
        s.filter(keeps(timestamp)) == s,
    decreases s.len(),
{
    reveal(Seq::filter);
    if s.len() == 0 {
        assert(s.filter(keeps(timestamp)) =~= s);
    } else {
        lemma_filter_keeps_all(s.drop_last(), timestamp);
        assert(keeps(timestamp)(s.last()));
        assert(s.filter(keeps(timestamp)) =~= s);
    }
}

proof fn lemma_filter_keeps_unique(s: Seq<AssetPrice>, timestamp: i32)
    requires
        ts_unique(s),
    ensures
        ts_unique(s.filter(keeps(timestamp))),
        forall|k: int|
            0 <= k < s.filter(keeps(timestamp)).len() ==> s.contains(
                #[trigger] s.filter(keeps(timestamp))[k],
            ),
    decreases s.len(),
{
    broadcast use group_filter_ensures;

    reveal(Seq::filter);
    let f = s.filter(keeps(timestamp));
    if s.len() == 0 {
    } else {
        let s1 = s.drop_last();
        let f1 = s1.filter(keeps(timestamp));
        lemma_filter_keeps_unique(s1, timestamp);
        assert forall|k: int| 0 <= k < f1.len() implies s.contains(#[trigger] f1[k]) by {
            let m = choose|m: int| 0 <= m < s1.len() && s1[m] == f1[k];
            assert(s[m] == f1[k]);
        }
        if keeps(timestamp)(s.last()) {
            assert(f == f1.push(s.last()));
            assert forall|k: int| 0 <= k < f1.len() implies #[trigger] f1[k].timestamp
                != s.last().timestamp by {
                let m = choose|m: int| 0 <= m < s1.len() && s1[m] == f1[k];
                assert(s[m].timestamp != s[s.len() - 1].timestamp);
            }
            assert(ts_unique(f));
        } else {
            assert(f == f1);
        }
    }
}

proof fn lemma_remove_first_is_filter(s: Seq<AssetPrice>, timestamp: i32, i: int)
    requires
        ts_unique(s),
        0 <= i < s.len(),
        s[i].timestamp == timestamp,
    ensures
        s.remove(i) == s.filter(keeps(timestamp)),
    decreases s.len(),
{
    reveal(Seq::filter);
    assert forall|j: int| 0 <= j < s.len() && j != i implies #[trigger] s[j].timestamp
        != timestamp by {
        if j < i {
            assert(s[j].timestamp != s[i].timestamp);
        } else {
            assert(s[i].timestamp != s[j].timestamp);
        }
    }
    if i == s.len() - 1 {
        assert(!keeps(timestamp)(s.last()));
        lemma_filter_keeps_all(s.drop_last(), timestamp);
        assert(s.remove(i) =~= s.drop_last());
        assert(s.filter(keeps(timestamp)) == s.drop_last().filter(keeps(timestamp)));
    } else {
        let s1 = s.drop_last();
        lemma_remove_first_is_filter(s1, timestamp, i);
        assert(keeps(timestamp)(s.last()));
        assert(s.filter(keeps(timestamp)) == s1.filter(keeps(timestamp)).push(s.last()));
        assert(s.remove(i) =~= s1.remove(i).push(s.last()));
    }
}

/// Distinct `i32` timestamps bound a well-formed database by the number
/// of distinct `i32` values.
pub proof fn lemma_ts_unique_len_bound(s: Seq<AssetPrice>)
    requires
        ts_unique(s),
    ensures
        s.len() <= 0x1_0000_0000,
{
    let ts = Seq::new(s.len(), |i: int| s[i].timestamp as int);
    assert(ts.no_duplicates()) by {
        assert forall|i: int, j: int|
            0 <= i < ts.len() && 0 <= j < ts.len() && i != j implies ts[i] != ts[j] by {
            if i < j {
                assert(s[i].timestamp != s[j].timestamp);
            } else {
                assert(s[j].timestamp != s[i].timestamp);
            }
        }
    }
    ts.unique_seq_to_set();
    let all = set_int_range(-0x8000_0000, 0x8000_0000);
    assert(ts.to_set().subset_of(all)) by {
        assert forall|x: int| ts.to_set().contains(x) implies all.contains(x) by {
            assert(ts.contains(x));
            let m = choose|m: int| 0 <= m < ts.len() && ts[m] == x;
            assert(-0x8000_0000 <= s[m].timestamp < 0x8000_0000);
        }
    }
    lemma_int_range(-0x8000_0000, 0x8000_0000);
    lemma_len_subset(ts.to_set(), all);
}

proof fn lemma_sum_count_bounds(s: Seq<AssetPrice>, mintime: i32, maxtime: i32)
    ensures
        0 <= count_in_range(s, mintime, maxtime) <= s.len(),
        i32::MIN * count_in_range(s, mintime, maxtime) <= sum_in_range(s, mintime, maxtime)
            <= i32::MAX * count_in_range(s, mintime, maxtime),
    decreases s.len(),
{
    if s.len() == 0 {
    } else {
        lemma_sum_count_bounds(s.drop_last(), mintime, maxtime);
        let c1 = count_in_range(s.drop_last(), mintime, maxtime);
        if in_range(s.last().timestamp, mintime, maxtime) {
            lemma_mul_is_distributive_add(i32::MIN as int, c1, 1);
            lemma_mul_is_distributive_add(i32::MAX as int, c1, 1);
        }
    }
}

/// The mean of prices that each fit in `i32` fits in `i32` itself.
pub proof fn lemma_query_fits_i32(s: Seq<AssetPrice>, mintime: i32, maxtime: i32)
    ensures
        i32::MIN <= query_spec(s, mintime, maxtime) <= i32::MAX,
{
    lemma_sum_count_bounds(s, mintime, maxtime);
    let total = sum_in_range(s, mintime, maxtime);
    let num = count_in_range(s, mintime, maxtime);
    if maxtime < mintime || num == 0 {
    } else {
        if total >= 0 {
            lemma_div_pos_is_pos(total, num);
            lemma_div_is_ordered(total, i32::MAX * num, num);
            lemma_div_multiples_vanish(i32::MAX as int, num);
            assert(num * i32::MAX == i32::MAX * num) by (nonlinear_arith);
        } else {
            lemma_div_pos_is_pos(-total, num);
            lemma_div_is_ordered(-total, -(i32::MIN as int) * num, num);
            lemma_div_multiples_vanish(-(i32::MIN as int), num);
            assert(num * -(i32::MIN as int) == -(i32::MIN as int) * num) by (nonlinear_arith);
            assert(-total <= -(i32::MIN as int) * num) by (nonlinear_arith)
                requires
                    i32::MIN * num <= total,
            ;
        }
    }
}

/// A byte sequence whose first byte is neither `'I'` nor `'Q'` never
/// decodes: it always yields the invalid-message-type error.
pub proof fn lemma_decode_unknown_tag(b: Seq<u8>)
    requires
        b[0] != TAG_INSERT,
        b[0] != TAG_QUERY,
    ensures
        decode_spec(b) == Err::<Message, MeansToAnEndError>(MeansToAnEndError::InvalidMessageType),
{
}

/// The predicate that a record sits at exactly `timestamp`.
pub open spec fn at_ts(timestamp: i32) -> spec_fn(AssetPrice) -> bool {
    |p: AssetPrice| p.timestamp == timestamp
}

/// A query over an inverted range answers `0`, whatever the database
/// holds — such a range is empty by definition.
pub proof fn lemma_query_inverted_range(s: Seq<AssetPrice>, mintime: i32, maxtime: i32)
    requires
        maxtime < mintime,
    ensures
        query_spec(s, mintime, maxtime) == 0,
{
}

/// A query over a range that holds no record answers `0`.
pub proof fn lemma_query_no_records(s: Seq<AssetPrice>, mintime: i32, maxtime: i32)
    requires
        count_in_range(s, mintime, maxtime) == 0,
    ensures
        query_spec(s, mintime, maxtime) == 0,
{
}

proof fn lemma_count_zero_sum_zero(s: Seq<AssetPrice>, mintime: i32, maxtime: i32)
    requires
        count_in_range(s, mintime, maxtime) == 0,
    ensures
        sum_in_range(s, mintime, maxtime) == 0,
    decreases s.len(),
{
    if s.len() == 0 {
    } else {
        lemma_sum_count_bounds(s.drop_last(), mintime, maxtime);
        lemma_count_zero_sum_zero(s.drop_last(), mintime, maxtime);
    }
}

proof fn lemma_count_one_sum(s: Seq<AssetPrice>, mintime: i32, maxtime: i32)
    requires
        count_in_range(s, mintime, maxtime) == 1,
    ensures
        exists|i: int|
            0 <= i < s.len() && in_range(#[trigger] s[i].timestamp, mintime, maxtime)
                && sum_in_range(s, mintime, maxtime) == s[i].price,
    decreases s.len(),
{
    lemma_sum_count_bounds(s.drop_last(), mintime, maxtime);
    if in_range(s.last().timestamp, mintime, maxtime) {
        lemma_count_zero_sum_zero(s.drop_last(), mintime, maxtime);
        assert(in_range(s[s.len() - 1].timestamp, mintime, maxtime) && sum_in_range(
            s,
            mintime,
            maxtime,
        ) == s[s.len() - 1].price);
    } else {
        lemma_count_one_sum(s.drop_last(), mintime, maxtime);
        let i = choose|i: int|
            0 <= i < s.drop_last().len() && in_range(
                #[trigger] s.drop_last()[i].timestamp,
                mintime,
                maxtime,
            ) && sum_in_range(s.drop_last(), mintime, maxtime) == s.drop_last()[i].price;
        assert(in_range(s[i].timestamp, mintime, maxtime) && sum_in_range(s, mintime, maxtime)
            == s[i].price);
    }
}

/// A query over a range that holds exactly one record answers that
/// record's price.
pub proof fn lemma_query_single_record(s: Seq<AssetPrice>, mintime: i32, maxtime: i32)
    requires
        mintime <= maxtime,
        count_in_range(s, mintime, maxtime) == 1,
    ensures
        exists|i: int|
            0 <= i < s.len() && in_range(#[trigger] s[i].timestamp, mintime, maxtime)
                && query_spec(s, mintime, maxtime) == s[i].price,
{
    lemma_count_one_sum(s, mintime, maxtime);
    let i = choose|i: int|
        0 <= i < s.len() && in_range(#[trigger] s[i].timestamp, mintime, maxtime) && sum_in_range(
            s,
            mintime,
            maxtime,
        ) == s[i].price;
    assert(div_toward_zero(s[i].price as int, 1) == s[i].price);
    assert(in_range(s[i].timestamp, mintime, maxtime) && query_spec(s, mintime, maxtime)
        == s[i].price);
}

proof fn lemma_filter_at_ts_empty(s: Seq<AssetPrice>, timestamp: i32)
    requires
        forall|k: int| 0 <= k < s.len() ==> s[k].timestamp != timestamp,
    ensures
        s.filter(at_ts(timestamp)) == Seq::<AssetPrice>::empty(),
    decreases s.len(),
{
    reveal(Seq::filter);
    if s.len() == 0 {
        assert(s.filter(at_ts(timestamp)) =~= Seq::<AssetPrice>::empty());
    } else {
        lemma_filter_at_ts_empty(s.drop_last(), timestamp);
        assert(!at_ts(timestamp)(s.last()));
    }
}

/// An insert replaces rather than duplicates: afterwards exactly one
/// record sits at the inserted timestamp and carries the inserted price,
/// and the records at every other timestamp are exactly those of before.
pub proof fn lemma_insert_replaces(s: Seq<AssetPrice>, timestamp: i32, price: i32)
    requires
        ts_unique(s),
    ensures
        ts_unique(insert_spec(s, timestamp, price)),
        insert_spec(s, timestamp, price).filter(at_ts(timestamp)) == seq![
            AssetPrice { timestamp, price },
        ],
        insert_spec(s, timestamp, price).filter(keeps(timestamp)) == s.filter(keeps(timestamp)),
{
    broadcast use group_filter_ensures;

    reveal(Seq::filter);
    lemma_filter_keeps_unique(s, timestamp);
    let f = s.filter(keeps(timestamp));
    let f2 = insert_spec(s, timestamp, price);
    assert(f2.drop_last() =~= f);
    assert forall|i: int, j: int| 0 <= i < j < f2.len() implies f2[i].timestamp
        != f2[j].timestamp by {
        if j < f.len() {
        } else {
            assert(keeps(timestamp)(f[i]));
        }
    }
    assert forall|k: int| 0 <= k < f.len() implies #[trigger] f[k].timestamp != timestamp by {
        assert(keeps(timestamp)(f[k]));
    }
    lemma_filter_at_ts_empty(f, timestamp);
    assert(at_ts(timestamp)(f2.last()));
    assert(f2.filter(at_ts(timestamp)) =~= seq![AssetPrice { timestamp, price }]);
    lemma_filter_keeps_all(f, timestamp);
    assert(!keeps(timestamp)(f2.last()));
    assert(f2.filter(keeps(timestamp)) == f);
}

/// The per-connection price database: an unordered collection of records,
/// at most one per timestamp.
pub struct AssetPriceDB {
    asset_prices: Vec<AssetPrice>,
}

impl View for AssetPriceDB {
    type V = Seq<AssetPrice>;

    closed spec fn view(&self) -> Seq<AssetPrice> {
        self.asset_prices@
    }
}

impl AssetPriceDB {
    /// An empty database.
    pub fn new() -> (db: AssetPriceDB)
        ensures
            db@ == Seq::<AssetPrice>::empty(),
            ts_unique(db@),
    {
        AssetPriceDB { asset_prices: vec![] }
    }

    /// Drops the record at `timestamp`; a no-op when none is present.
    pub fn remove_if_exists(&mut self, timestamp: i32)
        requires
            ts_unique(old(self)@),
        ensures
            final(self)@ == old(self)@.filter(keeps(timestamp)),
    {
        let n = self.asset_prices.len();
        let mut i: usize = 0;
        while i < n
            invariant
                0 <= i <= n,
                n == self.asset_prices.len(),
                *self == *old(self),
                ts_unique(old(self)@),
                forall|j: int| 0 <= j < i ==> self.asset_prices@[j].timestamp != timestamp,
            decreases n - i,
        {
            if self.asset_prices[i].timestamp == timestamp {
                self.asset_prices.remove(i);
                proof {
                    lemma_remove_first_is_filter(old(self)@, timestamp, i as int);
                }
                return ;
            }
            i += 1;
        }
        proof {
            lemma_filter_keeps_all(old(self)@, timestamp);
        }
    }

    /// Records `price` at `timestamp`, replacing any record already there.
    pub fn insert(&mut self, timestamp: i32, price: i32)
        requires
            ts_unique(old(self)@),
        ensures
            final(self)@ == insert_spec(old(self)@, timestamp, price),
            ts_unique(final(self)@),
    {
        self.remove_if_exists(timestamp);
        self.asset_prices.push(AssetPrice { timestamp, price });
        proof {
            broadcast use group_filter_ensures;

            lemma_filter_keeps_unique(old(self)@, timestamp);
            let f = old(self)@.filter(keeps(timestamp));
            assert forall|i: int, j: int|
                0 <= i < j < self@.len() implies self@[i].timestamp != self@[j].timestamp by {
                if j < f.len() {
                } else {
                    assert(keeps(timestamp)(f[i]));
                }
            }
        }
    }

    /// The truncated mean of the prices in the inclusive timestamp range;
    /// `0` for an inverted or empty range.
    pub fn query(&self, mintime: i32, maxtime: i32) -> (r: i32)
        requires
            ts_unique(self@),
        ensures
            r as int == query_spec(self@, mintime, maxtime),
    {
        if maxtime < mintime {
            return 0;
        }
        proof {
            lemma_ts_unique_len_bound(self@);
        }
        let ghost s = self@;
        let n = self.asset_prices.len();
        let mut num_assets: i64 = 0;
        let mut total_asset_price: i64 = 0;
        let mut idx: usize = 0;
        while idx < n
            invariant
                0 <= idx <= n,
                n == self.asset_prices@.len(),
                s == self.asset_prices@,
                n <= 0x1_0000_0000,
                num_assets == count_in_range(s.take(idx as int), mintime, maxtime),
                total_asset_price == sum_in_range(s.take(idx as int), mintime, maxtime),
                0 <= num_assets <= idx,
                i32::MIN * num_assets <= total_asset_price <= i32::MAX * num_assets,
            decreases n - idx,
        {
            let p = self.asset_prices[idx];
            proof {
                assert(s.take(idx as int + 1).drop_last() =~= s.take(idx as int));
                assert(s.take(idx as int + 1).last() == s[idx as int]);
            }
            if mintime <= p.timestamp && p.timestamp <= maxtime {
                proof {
                    lemma_mul_is_distributive_add(i32::MIN as int, num_assets as int, 1);
                    lemma_mul_is_distributive_add(i32::MAX as int, num_assets as int, 1);
                    assert(i32::MIN * (num_assets + 1) >= i32::MIN * 0x1_0000_0000)
                        by (nonlinear_arith)
                        requires
                            num_assets + 1 <= 0x1_0000_0000,
                    ;
                    assert(i32::MAX * (num_assets + 1) <= i32::MAX * 0x1_0000_0000)
                        by (nonlinear_arith)
                        requires
                            0 <= num_assets + 1 <= 0x1_0000_0000,
                    ;
                }
                total_asset_price = total_asset_price + (p.price as i64);
                num_assets = num_assets + 1;
            }
            idx += 1;
        }
        proof {
            assert(s.take(n as int) =~= s);
        }
        if num_assets == 0 {
            0
        } else {
            proof {
                lemma_query_fits_i32(s, mintime, maxtime);
                if total_asset_price >= 0 {
                    lemma_div_pos_is_pos(total_asset_price as int, num_assets as int);
                    lemma_div_nonincreasing(total_asset_price as int, num_assets as int);
                } else {
                    lemma_div_pos_is_pos(-(total_asset_price as int), num_assets as int);
                    lemma_div_nonincreasing(-(total_asset_price as int), num_assets as int);
                }
            }
            let mean = total_asset_price.checked_div(num_assets).unwrap();
            mean as i32
        }
    }
}

/// The state scoped to one connection: its own private price database.
pub struct Session {
    pub db: AssetPriceDB,
}

impl Session {
    /// A fresh session with an empty database.
    pub fn new() -> (s: Session)
        ensures
            s.db@ == Seq::<AssetPrice>::empty(),
            ts_unique(s.db@),
    {
        Session { db: AssetPriceDB::new() }
    }
}

/// The database contents after one decoded message is applied.
pub open spec fn step_db_spec(s: Seq<AssetPrice>, m: Message) -> Seq<AssetPrice> {
    match m {
        Message::Insert { timestamp, price } => insert_spec(s, timestamp, price),
        Message::Query { .. } => s,
    }
}

/// The bytes owed to the peer for one decoded message, if any: an insert
/// is silent, a query gets the mean as 4 big-endian bytes.
pub open spec fn step_response_spec(s: Seq<AssetPrice>, m: Message) -> Option<Seq<u8>> {
    match m {
        Message::Insert { .. } => None,
        Message::Query { mintime, maxtime } => Some(
            be_bytes_of_i32(query_spec(s, mintime, maxtime) as i32),
        ),
    }
}

/// Whether an optional 4-byte response carries exactly the owed bytes.
pub open spec fn response_matches(r: Option<[u8; 4]>, owed: Option<Seq<u8>>) -> bool {
    match (r, owed) {
        (Option::None, Option::None) => true,
        (Option::Some(b), Option::Some(s)) => b@ == s,
        _ => false,
    }
}

/// Applies one decoded message to the session and returns what must be
/// written back, per the message's kind.
pub fn handle_message(session: &mut Session, message: Message) -> (response: Option<[u8; 4]>)
    requires
        ts_unique(old(session).db@),
    ensures
        ts_unique(final(session).db@),
        final(session).db@ == step_db_spec(old(session).db@, message),
        response_matches(response, step_response_spec(old(session).db@, message)),
{
    match message {
        Message::Insert { timestamp, price } => {
            session.db.insert(timestamp, price);
            None
        },
        Message::Query { mintime, maxtime } => {
            let mean = session.db.query(mintime, maxtime);
            proof {
                lemma_query_fits_i32(session.db@, mintime, maxtime);
            }
            Some(Message::i32_to_network_bytes(mean))
        },
    }
}

/// One turn of the read loop: decode 9 wire bytes and act on them. A
/// malformed message is silently discarded and the session is unchanged —
/// the protocol's deliberately lenient decode policy.
pub fn session_step(session: &mut Session, bytes: [u8; 9]) -> (response: Option<[u8; 4]>)
    requires
        ts_unique(old(session).db@),
    ensures
        ts_unique(final(session).db@),
        (match decode_spec(bytes@) {
            Ok(m) => final(session).db@ == step_db_spec(old(session).db@, m) && response_matches(
                response,
                step_response_spec(old(session).db@, m),
            ),
            Err(_) => final(session).db@ == old(session).db@ && response is None,
        }),
{
    match Message::from_network_bytes(bytes) {
        Ok(m) => handle_message(session, m),
        Err(_) => None,
    }
}

} // verus!
