//! Lists and maps that the host keeps.
//!
//! A `soroban_sdk::Vec` is a handle to a list inside the host, and a
//! `soroban_sdk::Map` one to a map, so their contents are out of the verifier's
//! sight: each kind of list or map has a name for its contents below, and the
//! methods that the market calls on it are trusted to do to those contents what
//! their documentation says. A list or a map of these types is only ever filled
//! through the methods here, so that every item of it is of its own type. The
//! host meters each call, and where its budget is spent it ends the whole
//! transaction.

use vstd::prelude::*;
use soroban_sdk::Env;
use crate::model::keys_ascend;
use crate::types::{Address, BetSide, PrecisionEntry, PrecisionPrediction, UserPosition};

verus! {

/// The handle through which the host is reached.
#[verifier::external_type_specification]
#[verifier::external_body]
pub struct ExEnv(soroban_sdk::Env);

/// The handle to a list inside the host.
#[verifier::external_type_specification]
#[verifier::external_body]
#[verifier::reject_recursive_types(T)]
pub struct ExHostVec<T>(soroban_sdk::Vec<T>);

/// The items of a host list of round numbers.
pub uninterp spec fn host_ids(list: soroban_sdk::Vec<u64>) -> Seq<u64>;

/// A host list of round numbers.
pub struct IdList {
    pub(crate) inner: soroban_sdk::Vec<u64>,
}

impl View for IdList {
    type V = Seq<u64>;

    closed spec fn view(&self) -> Seq<u64> {
        host_ids(self.inner)
    }
}

impl IdList {
    /// Calls `soroban_sdk::Vec::new`: the new list is empty.
    #[verifier::external_body]
    pub(crate) fn new(env: &Env) -> (list: IdList)
        ensures
            list@ == host_ids(list.inner),
            list@ == Seq::<u64>::empty(),
    {
        IdList { inner: soroban_sdk::Vec::new(env) }
    }

    /// Calls `soroban_sdk::Vec::push_back`: the item is put behind the others.
    #[verifier::external_body]
    pub(crate) fn push_back(&mut self, item: u64)
        requires
            old(self)@.len() < u32::MAX,
        ensures
            final(self)@ == old(self)@.push(item),
    {
        self.inner.push_back(item);
    }

    /// Calls `soroban_sdk::Vec::get`: the item at the position, or nothing
    /// where the list is not that long.
    #[verifier::external_body]
    pub(crate) fn get(&self, index: u32) -> (item: Option<u64>)
        ensures
            item == (if index < self@.len() {
                Some(self@[index as int])
            } else {
                None
            }),
    {
        self.inner.get(index)
    }

    /// Calls `soroban_sdk::Vec::len`: the number of items, which the host
    /// keeps within 32 bits.
    #[verifier::external_body]
    pub(crate) fn len(&self) -> (length: u32)
        ensures
            length == self@.len(),
    {
        self.inner.len()
    }

    /// Makes a host list of the given round numbers, in their order.
    pub fn from_ids(env: &Env, ids: &Vec<u64>) -> (list: IdList)
        requires
            ids@.len() <= u32::MAX,
        ensures
            list@ == ids@,
    {
        let mut list = IdList::new(env);
        let mut i: usize = 0;
        while i < ids.len()
            invariant
                i <= ids@.len() <= u32::MAX,
                list@ == ids@.take(i as int),
            decreases ids@.len() - i,
        {
            list.push_back(ids[i]);
            i = i + 1;
            proof {
                assert(ids@.take(i as int) =~= ids@.take(i - 1).push(ids@[i - 1]));
            }
        }
        proof {
            assert(ids@.take(i as int) =~= ids@);
        }
        list
    }

    /// Returns the round numbers of the host list, in their order.
    pub fn to_ids(&self) -> (ids: Vec<u64>)
        ensures
            ids@ == self@,
    {
        let mut ids: Vec<u64> = Vec::new();
        let length: u32 = self.len();
        let mut i: u32 = 0;
        while i < length
            invariant
                i <= length == self@.len(),
                ids@ == self@.take(i as int),
            decreases length - i,
        {
            match self.get(i) {
                Some(id) => {
                    ids.push(id);
                },
                None => {},
            }
            i = i + 1;
            proof {
                assert(self@.take(i as int) =~= self@.take(i - 1).push(self@[i - 1]));
            }
        }
        proof {
            assert(self@.take(i as int) =~= self@);
        }
        ids
    }
}

/// The rows of a host list of participants' entries: the three parts of the
/// user's address, the stake, the predicted price, and the mark of a winner.
pub uninterp spec fn host_rows(list: soroban_sdk::Vec<(u32, u128, u128, i128, u128, bool)>) -> Seq<(u32, u128, u128, i128, u128, bool)>;

/// A participant's entry as the host holds it.
pub type Row = (u32, u128, u128, i128, u128, bool);

/// The entry that a row stands for.
pub open spec fn row_entry(row: Row) -> PrecisionEntry {
    (Address { kind: row.0, high: row.1, low: row.2 }, row.3, row.4, row.5)
}

/// A host list of participants' entries: the user, the stake, the predicted
/// price, and whether the entry is a winner so far.
pub struct EntryList {
    pub(crate) inner: soroban_sdk::Vec<Row>,
}

impl View for EntryList {
    type V = Seq<PrecisionEntry>;

    closed spec fn view(&self) -> Seq<PrecisionEntry> {
        self.rows().map_values(|row: Row| row_entry(row))
    }
}

impl EntryList {
    /// The rows of the list.
    pub closed spec fn rows(&self) -> Seq<Row> {
        host_rows(self.inner)
    }

    /// Calls `soroban_sdk::Vec::new`: the new list is empty.
    #[verifier::external_body]
    fn new_rows(env: &Env) -> (list: EntryList)
        ensures
            list.rows() == host_rows(list.inner),
            list.rows() == Seq::<Row>::empty(),
    {
        EntryList { inner: soroban_sdk::Vec::new(env) }
    }

    /// Calls `soroban_sdk::Vec::push_back`: the row is put behind the others.
    #[verifier::external_body]
    fn push_row(&mut self, row: Row)
        requires
            old(self).rows().len() < u32::MAX,
        ensures
            final(self).rows() == old(self).rows().push(row),
    {
        self.inner.push_back(row);
    }

    /// Calls `soroban_sdk::Vec::get`: the row at the position, or nothing
    /// where the list is not that long.
    #[verifier::external_body]
    fn get_row(&self, index: u32) -> (row: Option<Row>)
        ensures
            row == (if index < self.rows().len() {
                Some(self.rows()[index as int])
            } else {
                None
            }),
    {
        self.inner.get(index)
    }

    /// Calls `soroban_sdk::Vec::set`: the row at the position is replaced.
    #[verifier::external_body]
    fn set_row(&mut self, index: u32, row: Row)
        requires
            index < old(self).rows().len(),
        ensures
            final(self).rows() == old(self).rows().update(index as int, row),
    {
        self.inner.set(index, row);
    }

    /// Calls `soroban_sdk::Vec::len`: the number of rows, which the host keeps
    /// within 32 bits.
    #[verifier::external_body]
    fn row_count(&self) -> (length: u32)
        ensures
            length == self.rows().len(),
    {
        self.inner.len()
    }

    /// Makes an empty list.
    pub(crate) fn new(env: &Env) -> (list: EntryList)
        ensures
            list@ == Seq::<PrecisionEntry>::empty(),
    {
        let list = EntryList::new_rows(env);
        proof {
            assert(list@ =~= Seq::<PrecisionEntry>::empty());
        }
        list
    }

    /// Puts an entry behind the others.
    pub(crate) fn push_back(&mut self, entry: PrecisionEntry)
        requires
            old(self)@.len() < u32::MAX,
        ensures
            final(self)@ == old(self)@.push(entry),
    {
        let (user, stake, price, mark) = entry;
        self.push_row((user.kind, user.high, user.low, stake, price, mark));
        proof {
            assert(self@ =~= old(self)@.push(entry));
        }
    }

    /// Returns the entry at a position, if the list is that long.
    pub(crate) fn get(&self, index: u32) -> (entry: Option<PrecisionEntry>)
        ensures
            entry == (if index < self@.len() {
                Some(self@[index as int])
            } else {
                None
            }),
    {
        match self.get_row(index) {
            Some((kind, high, low, stake, price, mark)) => {
                Some((Address { kind, high, low }, stake, price, mark))
            },
            None => None,
        }
    }

    /// Replaces the entry at a position.
    pub(crate) fn set(&mut self, index: u32, entry: PrecisionEntry)
        requires
            index < old(self)@.len(),
        ensures
            final(self)@ == old(self)@.update(index as int, entry),
    {
        let (user, stake, price, mark) = entry;
        self.set_row(index, (user.kind, user.high, user.low, stake, price, mark));
        proof {
            assert(self@ =~= old(self)@.update(index as int, entry));
        }
    }

    /// Returns the number of entries.
    pub(crate) fn len(&self) -> (length: u32)
        ensures
            length == self@.len(),
    {
        self.row_count()
    }
}

/// The parts of an address as the host holds it.
pub type Key = (u32, u128, u128);

/// The address that its parts stand for.
pub open spec fn key_address(key: Key) -> Address {
    Address { kind: key.0, high: key.1, low: key.2 }
}

/// One address comes before another, by their parts.
pub open spec fn key_before(a: Key, b: Key) -> bool {
    a.0 < b.0 || (a.0 == b.0 && (a.1 < b.1 || (a.1 == b.1 && a.2 < b.2)))
}

/// The items of a host list of addresses, in parts.
pub uninterp spec fn host_keys(list: soroban_sdk::Vec<(u32, u128, u128)>) -> Seq<(u32, u128, u128)>;

/// A host list of addresses.
pub struct AddressList {
    pub(crate) inner: soroban_sdk::Vec<Key>,
}

impl View for AddressList {
    type V = Seq<Address>;

    closed spec fn view(&self) -> Seq<Address> {
        self.parts().map_values(|key: Key| key_address(key))
    }
}

impl AddressList {
    /// The items of the list, in parts.
    pub closed spec fn parts(&self) -> Seq<Key> {
        host_keys(self.inner)
    }

    /// Calls `soroban_sdk::Vec::new`: the new list is empty.
    #[verifier::external_body]
    fn new_parts(env: &Env) -> (list: AddressList)
        ensures
            list.parts() == host_keys(list.inner),
            list.parts() == Seq::<Key>::empty(),
    {
        AddressList { inner: soroban_sdk::Vec::new(env) }
    }

    /// Calls `soroban_sdk::Vec::clone`: the copy has the same items.
    #[verifier::external_body]
    fn clone_parts(&self) -> (list: AddressList)
        ensures
            list.parts() == self.parts(),
    {
        AddressList { inner: self.inner.clone() }
    }

    /// Calls `soroban_sdk::Vec::insert`: the item is put at the position, and
    /// those from there on move one place back.
    #[verifier::external_body]
    fn insert_parts(&mut self, index: u32, key: Key)
        requires
            index <= old(self).parts().len(),
            old(self).parts().len() < u32::MAX,
        ensures
            final(self).parts() == old(self).parts().insert(index as int, key),
    {
        self.inner.insert(index, key);
    }

    /// Calls `soroban_sdk::Vec::get`: the item at the position, or nothing
    /// where the list is not that long.
    #[verifier::external_body]
    fn get_parts(&self, index: u32) -> (key: Option<Key>)
        ensures
            key == (if index < self.parts().len() {
                Some(self.parts()[index as int])
            } else {
                None
            }),
    {
        self.inner.get(index)
    }

    /// Calls `soroban_sdk::Vec::len`: the number of items, which the host
    /// keeps within 32 bits.
    #[verifier::external_body]
    fn part_count(&self) -> (length: u32)
        ensures
            length == self.parts().len(),
    {
        self.inner.len()
    }

    /// Makes an empty list.
    pub fn new(env: &Env) -> (list: AddressList)
        ensures
            list@ == Seq::<Address>::empty(),
    {
        let list = AddressList::new_parts(env);
        proof {
            assert(list@ =~= Seq::<Address>::empty());
        }
        list
    }

    /// Makes a copy of the list.
    pub fn copy(&self) -> (list: AddressList)
        ensures
            list@ == self@,
    {
        self.clone_parts()
    }

    /// Puts an address at a position, before those that stood from there on.
    pub fn insert(&mut self, index: u32, address: Address)
        requires
            index <= old(self)@.len(),
            old(self)@.len() < u32::MAX,
        ensures
            final(self)@ == old(self)@.insert(index as int, address),
    {
        self.insert_parts(index, (address.kind, address.high, address.low));
        proof {
            assert(self@ =~= old(self)@.insert(index as int, address));
        }
    }

    /// Returns the address at a position, if the list is that long.
    pub fn get(&self, index: u32) -> (address: Option<Address>)
        ensures
            address == (if index < self@.len() {
                Some(self@[index as int])
            } else {
                None
            }),
    {
        match self.get_parts(index) {
            Some((kind, high, low)) => Some(Address { kind, high, low }),
            None => None,
        }
    }

    /// Returns the number of addresses.
    pub fn len(&self) -> (length: u32)
        ensures
            length == self@.len(),
    {
        self.part_count()
    }

    /// Makes a host list of the given addresses, in their order.
    pub fn from_users(env: &Env, users: &Vec<Address>) -> (list: AddressList)
        requires
            users@.len() <= u32::MAX,
        ensures
            list@ == users@,
    {
        let mut list = AddressList::new(env);
        let mut i: usize = 0;
        while i < users.len()
            invariant
                i <= users@.len() <= u32::MAX,
                list@ == users@.take(i as int),
            decreases users@.len() - i,
        {
            list.insert(i as u32, users[i]);
            i = i + 1;
            proof {
                assert(users@.take(i as int) =~= users@.take(i - 1).insert(i - 1, users@[i - 1]));
            }
        }
        proof {
            assert(users@.take(i as int) =~= users@);
        }
        list
    }
}

/// The handle to a map inside the host.
#[verifier::external_type_specification]
#[verifier::external_body]
#[verifier::reject_recursive_types(K)]
#[verifier::reject_recursive_types(V)]
pub struct ExHostMap<K, V>(soroban_sdk::Map<K, V>);

/// The pairs of a host map from addresses to rows, in the order of the keys,
/// which is the one that the host keeps them in.
pub uninterp spec fn host_pairs(map: soroban_sdk::Map<(u32, u128, u128), (u32, u128, u128, i128, u128, bool)>) -> Seq<((u32, u128, u128), (u32, u128, u128, i128, u128, bool))>;

/// A host map from addresses to rows.
pub struct RowMap {
    inner: soroban_sdk::Map<Key, Row>,
}

impl RowMap {
    /// The pairs of the map, in the order of the keys.
    pub closed spec fn pairs(&self) -> Seq<(Key, Row)> {
        host_pairs(self.inner)
    }

    /// Calls `soroban_sdk::Map::new`: the new map is empty.
    #[verifier::external_body]
    fn new(env: &Env) -> (map: RowMap)
        ensures
            map.pairs() == host_pairs(map.inner),
            map.pairs() == Seq::<(Key, Row)>::empty(),
    {
        RowMap { inner: soroban_sdk::Map::new(env) }
    }

    /// Calls `soroban_sdk::Map::clone`: the copy has the same pairs.
    #[verifier::external_body]
    fn copy(&self) -> (map: RowMap)
        ensures
            map.pairs() == self.pairs(),
    {
        RowMap { inner: self.inner.clone() }
    }

    /// Calls `soroban_sdk::Map::set` with a key behind all others: the pair is
    /// put behind the others.
    #[verifier::external_body]
    fn set_last(&mut self, key: Key, row: Row)
        requires
            old(self).pairs().len() < u32::MAX,
            old(self).pairs().len() > 0 ==> key_before(old(self).pairs().last().0, key),
        ensures
            final(self).pairs() == old(self).pairs().push((key, row)),
    {
        self.inner.set(key, row);
    }

    /// Calls `soroban_sdk::Map::get`: the row under the key, or nothing where
    /// there is none.
    #[verifier::external_body]
    fn get(&self, key: Key) -> (row: Option<Row>)
        ensures
            forall|i: int|
                0 <= i < self.pairs().len() && (#[trigger] self.pairs()[i]).0 == key ==> row
                    == Some(self.pairs()[i].1),
            (forall|i: int| 0 <= i < self.pairs().len() ==> (#[trigger] self.pairs()[i]).0 != key)
                ==> row is None,
    {
        self.inner.get(key)
    }

    /// Calls `soroban_sdk::Map::keys`: the keys, in their order.
    #[verifier::external_body]
    fn keys(&self) -> (keys: AddressList)
        ensures
            keys.parts() == self.pairs().map_values(|pair: (Key, Row)| pair.0),
    {
        AddressList { inner: self.inner.keys() }
    }

    /// Calls `soroban_sdk::Map::values`: the rows, in the order of their keys.
    #[verifier::external_body]
    fn values(&self) -> (rows: EntryList)
        ensures
            rows.rows() == self.pairs().map_values(|pair: (Key, Row)| pair.1),
    {
        EntryList { inner: self.inner.values() }
    }

    /// Calls `soroban_sdk::Map::len`: the number of pairs, which the host
    /// keeps within 32 bits.
    #[verifier::external_body]
    fn len(&self) -> (length: u32)
        ensures
            length == self.pairs().len(),
    {
        self.inner.len()
    }
}

/// The position that a pair stands for.
pub open spec fn pair_position(pair: (Key, Row)) -> (Address, UserPosition) {
    (
        key_address(pair.0),
        UserPosition {
            amount: pair.1.3,
            side: if pair.1.5 {
                BetSide::Up
            } else {
                BetSide::Down
            },
        },
    )
}

/// The prediction that a pair stands for.
pub open spec fn pair_prediction(pair: (Key, Row)) -> (Address, PrecisionPrediction) {
    (
        key_address(pair.0),
        PrecisionPrediction {
            user: row_entry(pair.1).0,
            predicted_price: pair.1.4,
            amount: pair.1.3,
        },
    )
}

/// The older list of positions: a host map from users to positions.
pub struct PositionMap {
    pub(crate) rows: RowMap,
}

impl View for PositionMap {
    type V = Seq<(Address, UserPosition)>;

    closed spec fn view(&self) -> Seq<(Address, UserPosition)> {
        self.rows.pairs().map_values(|pair: (Key, Row)| pair_position(pair))
    }
}

impl PositionMap {
    /// Makes a host map of the given positions.
    pub fn from_entries(env: &Env, entries: &Vec<(Address, UserPosition)>) -> (map: PositionMap)
        requires
            entries@.len() <= u32::MAX,
            keys_ascend(entries@),
        ensures
            map@ == entries@,
    {
        let mut map = PositionMap { rows: RowMap::new(env) };
        let mut i: usize = 0;
        proof {
            assert(map@ =~= entries@.take(0));
        }
        while i < entries.len()
            invariant
                i <= entries@.len() <= u32::MAX,
                keys_ascend(entries@),
                map@ == entries@.take(i as int),
            decreases entries@.len() - i,
        {
            let (user, position) = entries[i];
            let is_up: bool = position.side == BetSide::Up;
            proof {
                assert(map@.len() == i);
                if i > 0 {
                    assert(map@[i - 1] == entries@[i - 1]);
                    assert(entries@[i - 1].0 != entries@[i as int].0);
                }
            }
            let ghost before = map@;
            map.rows.set_last(
                (user.kind, user.high, user.low),
                (user.kind, user.high, user.low, position.amount, 0, is_up),
            );
            i = i + 1;
            proof {
                assert(map@ =~= before.push((user, position)));
                assert(entries@.take(i as int) =~= before.push((user, position)));
            }
        }
        proof {
            assert(entries@.take(i as int) =~= entries@);
        }
        map
    }

    /// Makes a copy of the map.
    pub(crate) fn copy(&self) -> (map: PositionMap)
        ensures
            map@ == self@,
    {
        PositionMap { rows: self.rows.copy() }
    }

    /// Returns the number of positions.
    pub fn len(&self) -> (length: u32)
        ensures
            length == self@.len(),
    {
        self.rows.len()
    }

    /// Returns the users of the map, in their order.
    pub fn keys(&self) -> (users: AddressList)
        ensures
            users@ == self@.map_values(|entry: (Address, UserPosition)| entry.0),
    {
        let users = self.rows.keys();
        proof {
            assert(users@ =~= self@.map_values(|entry: (Address, UserPosition)| entry.0));
        }
        users
    }

    /// Returns the position of a user, if there is one.
    pub fn get(&self, user: &Address) -> (position: Option<UserPosition>)
        ensures
            forall|i: int|
                0 <= i < self@.len() && (#[trigger] self@[i]).0 == *user ==> position == Some(
                    self@[i].1,
                ),
            (forall|i: int| 0 <= i < self@.len() ==> (#[trigger] self@[i]).0 != *user)
                ==> position is None,
    {
        let found = self.rows.get((user.kind, user.high, user.low));
        proof {
            let key = (user.kind, user.high, user.low);
            assert forall|i: int| 0 <= i < self@.len() && (#[trigger] self@[i]).0
                == *user implies found is Some && pair_position((key, found->0)) == self@[i] by {
                assert(self.rows.pairs()[i].0 == key);
            }
            if forall|i: int| 0 <= i < self@.len() ==> (#[trigger] self@[i]).0 != *user {
                assert forall|i: int| 0 <= i < self.rows.pairs().len() implies (
                #[trigger] self.rows.pairs()[i]).0 != key by {
                    assert(self@[i].0 != *user);
                }
            }
        }
        match found {
            Some((_, _, _, amount, _, is_up)) => Some(
                UserPosition {
                    amount,
                    side: if is_up {
                        BetSide::Up
                    } else {
                        BetSide::Down
                    },
                },
            ),
            None => None,
        }
    }
}

/// The older list of predictions: a host map from users to predictions.
pub struct PredictionMap {
    pub(crate) rows: RowMap,
}

impl View for PredictionMap {
    type V = Seq<(Address, PrecisionPrediction)>;

    closed spec fn view(&self) -> Seq<(Address, PrecisionPrediction)> {
        self.rows.pairs().map_values(|pair: (Key, Row)| pair_prediction(pair))
    }
}

impl PredictionMap {
    /// Makes a host map of the given predictions.
    pub fn from_entries(env: &Env, entries: &Vec<(Address, PrecisionPrediction)>) -> (map:
        PredictionMap)
        requires
            entries@.len() <= u32::MAX,
            keys_ascend(entries@),
        ensures
            map@ == entries@,
    {
        let mut map = PredictionMap { rows: RowMap::new(env) };
        let mut i: usize = 0;
        proof {
            assert(map@ =~= entries@.take(0));
        }
        while i < entries.len()
            invariant
                i <= entries@.len() <= u32::MAX,
                keys_ascend(entries@),
                map@ == entries@.take(i as int),
            decreases entries@.len() - i,
        {
            let (key, made) = entries[i];
            proof {
                assert(map@.len() == i);
                if i > 0 {
                    assert(map@[i - 1] == entries@[i - 1]);
                    assert(entries@[i - 1].0 != entries@[i as int].0);
                }
            }
            let ghost before = map@;
            map.rows.set_last(
                (key.kind, key.high, key.low),
                (
                    made.user.kind,
                    made.user.high,
                    made.user.low,
                    made.amount,
                    made.predicted_price,
                    false,
                ),
            );
            i = i + 1;
            proof {
                assert(map@ =~= before.push((key, made)));
                assert(entries@.take(i as int) =~= before.push((key, made)));
            }
        }
        proof {
            assert(entries@.take(i as int) =~= entries@);
        }
        map
    }

    /// Makes a copy of the map.
    pub(crate) fn copy(&self) -> (map: PredictionMap)
        ensures
            map@ == self@,
    {
        PredictionMap { rows: self.rows.copy() }
    }

    /// Returns the predictions of the map, in the order of their users.
    pub(crate) fn values(&self) -> (list: PredictionList)
        ensures
            list@ == self@.map_values(|entry: (Address, PrecisionPrediction)| entry.1),
    {
        let list = PredictionList { entries: self.rows.values() };
        proof {
            assert(list@ =~= self@.map_values(
                |entry: (Address, PrecisionPrediction)| entry.1,
            ));
        }
        list
    }

    /// Returns the number of predictions.
    pub fn len(&self) -> (length: u32)
        ensures
            length == self@.len(),
    {
        self.rows.len()
    }
}

/// The prediction that an entry stands for.
pub open spec fn entry_prediction(entry: PrecisionEntry) -> PrecisionPrediction {
    PrecisionPrediction { user: entry.0, predicted_price: entry.2, amount: entry.1 }
}

/// A host list of predictions.
pub struct PredictionList {
    pub(crate) entries: EntryList,
}

impl View for PredictionList {
    type V = Seq<PrecisionPrediction>;

    closed spec fn view(&self) -> Seq<PrecisionPrediction> {
        self.entries@.map_values(|entry: PrecisionEntry| entry_prediction(entry))
    }
}

impl PredictionList {
    /// Returns the prediction at a position, if the list is that long.
    pub(crate) fn get(&self, index: u32) -> (prediction: Option<PrecisionPrediction>)
        ensures
            prediction == (if index < self@.len() {
                Some(self@[index as int])
            } else {
                None
            }),
    {
        match self.entries.get(index) {
            Some((user, amount, predicted_price, _)) => {
                Some(PrecisionPrediction { user, predicted_price, amount })
            },
            None => None,
        }
    }

    /// Returns the number of predictions.
    pub(crate) fn len(&self) -> (length: u32)
        ensures
            length == self@.len(),
    {
        self.entries.len()
    }
}

} // verus!
