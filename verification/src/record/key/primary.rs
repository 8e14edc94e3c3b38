//! The composite primary key: the values of the primary key columns of a
//! row, in the order in which the schema names them.

use std::cmp::Ordering;
use std::collections::hash_map::DefaultHasher;
use std::hash::Hasher;
use vstd::prelude::*;
use vstd::std_specs::cmp::{PartialEqSpecImpl, PartialOrdSpecImpl};
use vstd::std_specs::convert::FromSpecImpl;

use crate::record::key::order::Order;
use crate::record::runtime::row::{
    checked_values_size, decode_values, encode_values, values_decoding, values_encoding,
    values_size, values_wanted, views, want_values,
};
use crate::record::runtime::schema::DynSchema;
use crate::record::runtime::value::{
    lemma_value_order_equal, lemma_value_order_reversed, lemma_value_order_transitive, Value,
    ValueView,
};
use crate::serdes::DecodeError;

verus! {

/// A key made of one value for each primary key column.
#[derive(Debug, Clone, Hash)]
pub struct PrimaryKey {
    keys: Vec<Value>,
}

impl View for PrimaryKey {
    type V = Seq<ValueView>;

    closed spec fn view(&self) -> Seq<ValueView> {
        views(self.keys@)
    }
}

/// How the key `a` stands to the key `b`: the first position, among those
/// that both have, in which their values differ decides. Keys that agree in
/// every position that both have stand equal, also where one is longer: a
/// key of the leading columns alone thereby matches every key that starts
/// with it.
pub open spec fn prefix_order(a: Seq<ValueView>, b: Seq<ValueView>) -> Order
    decreases a.len(),
{
    if a.len() == 0 || b.len() == 0 {
        Order::Equal
    } else if a[0].order(b[0]) != Order::Equal {
        a[0].order(b[0])
    } else {
        prefix_order(a.drop_first(), b.drop_first())
    }
}

/// The keys `a` and `b` hold the same value in every position that both
/// have.
pub open spec fn prefix_equal(a: Seq<ValueView>, b: Seq<ValueView>) -> bool {
    forall|i: int| 0 <= i < a.len() && i < b.len() ==> a[i] == b[i]
}

/// Two keys that agree on their first `n` positions stand to each other as
/// what is left of them does.
pub proof fn lemma_prefix_order_skip(a: Seq<ValueView>, b: Seq<ValueView>, n: int)
    requires
        0 <= n <= a.len(),
        n <= b.len(),
        forall|k: int| 0 <= k < n ==> a[k].order(b[k]) == Order::Equal,
    ensures
        prefix_order(a, b) == prefix_order(a.skip(n), b.skip(n)),
    decreases n,
{
    if n == 0 {
        assert(a.skip(0) == a);
        assert(b.skip(0) == b);
    } else {
        assert forall|k: int| 0 <= k < n - 1 implies a.drop_first()[k].order(b.drop_first()[k])
            == Order::Equal by {
            assert(a.drop_first()[k] == a[k + 1]);
            assert(b.drop_first()[k] == b[k + 1]);
        }
        lemma_prefix_order_skip(a.drop_first(), b.drop_first(), n - 1);
        assert(a.drop_first().skip(n - 1) == a.skip(n));
        assert(b.drop_first().skip(n - 1) == b.skip(n));
    }
}

/// Two keys stand equal exactly if they hold the same value in every
/// position that both have; keys of one length then are the same key.
pub proof fn lemma_prefix_order_equal(a: Seq<ValueView>, b: Seq<ValueView>)
    ensures
        prefix_order(a, b) == Order::Equal <==> prefix_equal(a, b),
        a.len() == b.len() ==> (prefix_order(a, b) == Order::Equal <==> a == b),
    decreases a.len(),
{
    if a.len() > 0 && b.len() > 0 {
        lemma_value_order_equal(a[0], b[0]);
        lemma_prefix_order_equal(a.drop_first(), b.drop_first());
        if prefix_equal(a, b) {
            assert(a[0] == b[0]);
            assert forall|i: int| 0 <= i < a.drop_first().len() && i < b.drop_first().len() implies 
                a.drop_first()[i] == b.drop_first()[i] by {
                assert(a.drop_first()[i] == a[i + 1]);
                assert(b.drop_first()[i] == b[i + 1]);
            }
        }
        if a[0] == b[0] && prefix_equal(a.drop_first(), b.drop_first()) {
            assert forall|i: int| 0 <= i < a.len() && i < b.len() implies a[i] == b[i] by {
                if i > 0 {
                    assert(a.drop_first()[i - 1] == a[i]);
                    assert(b.drop_first()[i - 1] == b[i]);
                }
            }
        }
    }
    if a.len() == b.len() && prefix_equal(a, b) {
        assert(a == b);
    }
}

/// Seen from the other side, the order of two keys is reversed.
pub proof fn lemma_prefix_order_reversed(a: Seq<ValueView>, b: Seq<ValueView>)
    ensures
        prefix_order(b, a) == prefix_order(a, b).reversed(),
    decreases a.len(),
{
    if a.len() > 0 && b.len() > 0 {
        lemma_value_order_reversed(a[0], b[0]);
        lemma_prefix_order_reversed(a.drop_first(), b.drop_first());
    }
}

/// What comes before a key comes before all that the key comes before.
pub proof fn lemma_prefix_order_transitive(
    a: Seq<ValueView>,
    b: Seq<ValueView>,
    c: Seq<ValueView>,
)
    requires
        prefix_order(a, b) == Order::Less,
        prefix_order(b, c) == Order::Less,
    ensures
        prefix_order(a, c) == Order::Less,
    decreases a.len(),
{
    if a.len() > 0 && b.len() > 0 && c.len() > 0 {
        lemma_value_order_equal(a[0], b[0]);
        lemma_value_order_equal(b[0], c[0]);
        lemma_value_order_equal(a[0], c[0]);
        lemma_value_order_reversed(a[0], b[0]);
        lemma_value_order_reversed(b[0], c[0]);
        if a[0].order(b[0]) == Order::Less && b[0].order(c[0]) == Order::Less {
            lemma_value_order_transitive(a[0], b[0], c[0]);
        } else if a[0] == b[0] && b[0] == c[0] {
            lemma_prefix_order_transitive(a.drop_first(), b.drop_first(), c.drop_first());
        }
    }
}

/// Keys of one length that stand equal have the same bytes, which is what a
/// hasher is fed. Of keys of different lengths this does not hold: a key
/// stands equal to each of its leading parts.
pub proof fn lemma_key_hash_agrees(a: Seq<ValueView>, b: Seq<ValueView>)
    requires
        a.len() == b.len(),
        prefix_order(a, b) == Order::Equal,
    ensures
        values_encoding(a) == values_encoding(b),
{
    lemma_prefix_order_equal(a, b);
}

impl PrimaryKey {
    /// The key that holds `keys`, one value for each primary key column.
    pub fn new(keys: Vec<Value>) -> (r: Self)
        ensures
            r@ == views(keys@),
    {
        Self { keys }
    }

    /// Whether a key of leading columns alone may stand for all the keys
    /// that start with it, under the schema `_schema`: under every schema it
    /// may, as the order of keys sees to it.
    pub fn prefix_match(_schema: &DynSchema) -> (r: bool)
        ensures
            r,
    {
        true
    }

    /// The values of the key, in the order of the primary key columns.
    pub fn values(&self) -> (r: &Vec<Value>)
        ensures
            views(r@) == self@,
    {
        &self.keys
    }

    /// The key in the form in which it is looked up: a key that holds the
    /// same values.
    pub fn as_key_ref(&self) -> (r: PrimaryKey)
        ensures
            r@ == self@,
    {
        let mut keys: Vec<Value> = Vec::new();
        let mut i: usize = 0;
        while i < self.keys.len()
            invariant
                i <= self.keys.len(),
                views(keys@) == views(self.keys@).take(i as int),
            decreases self.keys.len() - i,
        {
            let ghost before = views(keys@);
            keys.push(self.keys[i].duplicate());
            proof {
                assert(views(keys@) == before.push(self.keys@[i as int]@));
                assert(views(self.keys@).take(i + 1) == views(self.keys@).take(i as int).push(
                    self.keys@[i as int]@,
                ));
            }
            i += 1;
        }
        proof {
            assert(views(self.keys@).take(i as int) == views(self.keys@));
        }
        PrimaryKey { keys }
    }

    /// The key that a reference stands for.
    pub fn to_key(self) -> (r: PrimaryKey)
        ensures
            r@ == self@,
    {
        self
    }

    /// How the key stands to `other`, see [`prefix_order`].
    pub fn compare(&self, other: &Self) -> (r: Order)
        ensures
            r == prefix_order(self@, other@),
    {
        let ghost a = views(self.keys@);
        let ghost b = views(other.keys@);
        let mut i: usize = 0;
        while i < self.keys.len() && i < other.keys.len()
            invariant
                i <= self.keys.len(),
                i <= other.keys.len(),
                a == views(self.keys@),
                b == views(other.keys@),
                forall|k: int| 0 <= k < i ==> a[k].order(b[k]) == Order::Equal,
            decreases self.keys.len() - i,
        {
            let found = self.keys[i].compare(&other.keys[i]);
            if found != Order::Equal {
                proof {
                    lemma_prefix_order_skip(a, b, i as int);
                    assert(a.skip(i as int)[0] == a[i as int]);
                    assert(b.skip(i as int)[0] == b[i as int]);
                }
                return found;
            }
            i += 1;
        }
        proof {
            lemma_prefix_order_skip(a, b, i as int);
        }
        Order::Equal
    }

    /// How the key stands to `other`, in the standard library's terms.
    pub fn cmp(&self, other: &Self) -> (r: Ordering)
        ensures
            r == prefix_order(self@, other@).ordering(),
    {
        self.compare(other).to_ordering()
    }

    /// Feeds the bytes of the key to `state`, in one piece.
    pub fn hash(&self, state: &mut DefaultHasher)
        ensures
            final(state)@ == old(state)@.push(values_encoding(self@)),
    {
        let mut bytes: Vec<u8> = Vec::new();
        self.encode(&mut bytes);
        state.write(bytes.as_slice());
    }

    /// Appends the bytes of the key to `out`: the number of its values, then
    /// each value.
    pub fn encode(&self, out: &mut Vec<u8>)
        ensures
            final(out)@ == old(out)@ + values_encoding(self@),
    {
        encode_values(&self.keys, out);
    }

    /// How many bytes [`encode`](Self::encode) appends.
    pub fn size(&self) -> (n: usize)
        requires
            values_encoding(self@).len() <= usize::MAX,
        ensures
            n == values_encoding(self@).len(),
    {
        values_size(&self.keys)
    }

    /// How many bytes [`encode`](Self::encode) appends, if that many can be
    /// counted on this machine.
    pub fn checked_size(&self) -> (r: Option<usize>)
        ensures
            match r {
                Some(n) => n == values_encoding(self@).len(),
                None => values_encoding(self@).len() > usize::MAX,
            },
    {
        checked_values_size(&self.keys)
    }

    /// How many more bytes a reader has to fetch before a key can be read
    /// from `input`, see [`values_wanted`].
    pub fn wanted(input: &[u8]) -> (r: u64)
        ensures
            r == values_wanted(input@),
    {
        want_values(input)
    }

    /// Reads a key from the start of `input`; gives the key and how many
    /// bytes it took.
    pub fn decode(input: &[u8]) -> (r: Result<(PrimaryKey, usize), DecodeError>)
        ensures
            match r {
                Ok((key, taken)) => values_decoding(input@) == Ok::<_, DecodeError>(
                    (key@, taken as nat),
                ),
                Err(e) => values_decoding(input@) == Err::<(Seq<ValueView>, nat), _>(e),
            },
    {
        match decode_values(input) {
            Ok((keys, taken)) => Ok((PrimaryKey { keys }, taken)),
            Err(e) => Err(e),
        }
    }
}

impl PartialEq for PrimaryKey {
    fn eq(&self, other: &Self) -> (r: bool) {
        proof {
            lemma_prefix_order_equal(self@, other@);
        }
        self.compare(other) == Order::Equal
    }
}

impl PartialEqSpecImpl for PrimaryKey {
    open spec fn obeys_eq_spec() -> bool {
        true
    }

    open spec fn eq_spec(&self, other: &Self) -> bool {
        prefix_equal(self@, other@)
    }
}

impl Eq for PrimaryKey {

}

impl PartialOrd for PrimaryKey {
    fn partial_cmp(&self, other: &Self) -> (r: Option<Ordering>) {
        Some(self.cmp(other))
    }
}

impl PartialOrdSpecImpl for PrimaryKey {
    open spec fn obeys_partial_cmp_spec() -> bool {
        true
    }

    open spec fn partial_cmp_spec(&self, other: &Self) -> Option<Ordering> {
        Some(prefix_order(self@, other@).ordering())
    }
}

impl From<Value> for PrimaryKey {
    /// The key of a single column that holds `value`.
    fn from(value: Value) -> (r: Self)
        ensures
            r@ == seq![value@],
    {
        let mut keys: Vec<Value> = Vec::new();
        keys.push(value);
        proof {
            assert(views(keys@) == seq![value@]);
        }
        PrimaryKey { keys }
    }
}

impl FromSpecImpl<Value> for PrimaryKey {
    open spec fn obeys_from_spec() -> bool {
        false
    }

    open spec fn from_spec(value: Value) -> Self {
        arbitrary()
    }
}

} // verus!
