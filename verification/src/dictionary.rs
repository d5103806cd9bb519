//! A small dictionary from texts to texts, in the order in which its keys came.

use crate::caseless::{caseless_eq, same_caseless};
use crate::text::{same_text, texts};
use vstd::prelude::*;

verus! {

/// Whether the key `stored` of a dictionary is the key `key` that is asked for.
pub open spec fn key_eq(caseless: bool, stored: Seq<char>, key: Seq<char>) -> bool {
    if caseless {
        caseless_eq(stored, key)
    } else {
        stored == key
    }
}

/// The index of the first of `keys` that is the key `key`; -1 where none is.
pub open spec fn position(caseless: bool, keys: Seq<Seq<char>>, key: Seq<char>) -> int
    decreases keys.len(),
{
    if keys.len() == 0 {
        -1
    } else {
        let before = position(caseless, keys.drop_last(), key);
        if before >= 0 {
            before
        } else if key_eq(caseless, keys.last(), key) {
            keys.len() - 1
        } else {
            -1
        }
    }
}

/// The mathematical value of a [`Dictionary`].
pub struct DictionaryModel {
    pub caseless: bool,
    pub keys: Seq<Seq<char>>,
    pub values: Seq<Seq<char>>,
}

impl DictionaryModel {
    /// The dictionary without keys.
    pub open spec fn empty(caseless: bool) -> DictionaryModel {
        DictionaryModel { caseless, keys: Seq::empty(), values: Seq::empty() }
    }

    /// The value of the key `key`, where the dictionary has it.
    pub open spec fn get(self, key: Seq<char>) -> Option<Seq<char>> {
        let i = position(self.caseless, self.keys, key);
        if i >= 0 {
            Some(self.values[i])
        } else {
            None
        }
    }

    /// The dictionary with `value` as the value of `key`: in the place of the
    /// value that the key had, or at the end where it had none.
    pub open spec fn insert(self, key: Seq<char>, value: Seq<char>) -> DictionaryModel {
        let i = position(self.caseless, self.keys, key);
        if i >= 0 {
            DictionaryModel { values: self.values.update(i, value), ..self }
        } else {
            DictionaryModel { keys: self.keys.push(key), values: self.values.push(value), ..self }
        }
    }
}

/// A dictionary from texts to texts. Its keys are told apart exactly, or
/// without regard to case.
pub struct Dictionary {
    pub caseless: bool,
    pub keys: Vec<String>,
    pub values: Vec<String>,
}

impl View for Dictionary {
    type V = DictionaryModel;

    open spec fn view(&self) -> DictionaryModel {
        DictionaryModel {
            caseless: self.caseless,
            keys: texts(self.keys@),
            values: texts(self.values@),
        }
    }
}

/// What `position` finds: the key found is the key asked for, and none before it is.
pub proof fn lemma_position(caseless: bool, keys: Seq<Seq<char>>, key: Seq<char>)
    ensures
        -1 <= position(caseless, keys, key) < keys.len(),
        position(caseless, keys, key) >= 0 ==> key_eq(
            caseless,
            keys[position(caseless, keys, key)],
            key,
        ),
        forall|i: int|
            0 <= i < keys.len() && (position(caseless, keys, key) < 0 || i < position(
                caseless,
                keys,
                key,
            )) ==> !key_eq(caseless, #[trigger] keys[i], key),
    decreases keys.len(),
{
    if keys.len() > 0 {
        lemma_position(caseless, keys.drop_last(), key);
        let found = position(caseless, keys, key);
        assert forall|i: int| 0 <= i < keys.len() && (found < 0 || i < found) implies !key_eq(
            caseless,
            #[trigger] keys[i],
            key,
        ) by {
            if i < keys.len() - 1 {
                assert(keys.drop_last()[i] == keys[i]);
            }
        }
    }
}

impl Dictionary {
    /// The invariant of a dictionary: each key has its value.
    pub open spec fn wf(&self) -> bool {
        self.keys.len() == self.values.len()
    }

    /// A dictionary without keys.
    pub fn new(caseless: bool) -> (res: Dictionary)
        ensures
            res@ == DictionaryModel::empty(caseless),
            res.wf(),
    {
        let res = Dictionary { caseless, keys: Vec::new(), values: Vec::new() };
        assert(texts(res.keys@) =~= Seq::<Seq<char>>::empty());
        assert(texts(res.values@) =~= Seq::<Seq<char>>::empty());
        res
    }

    /// Finds the first key that is the key `key`.
    pub fn find(&self, key: &str) -> (res: Option<usize>)
        ensures
            match res {
                Some(i) => i == position(self.caseless, self@.keys, key@) && i < self.keys.len(),
                None => position(self.caseless, self@.keys, key@) == -1,
            },
    {
        let ghost keys = texts(self.keys@);
        let mut i: usize = 0;
        assert(keys.take(0) =~= Seq::<Seq<char>>::empty());
        while i < self.keys.len()
            invariant
                i <= self.keys.len(),
                keys == texts(self.keys@),
                position(self.caseless, keys.take(i as int), key@) == -1,
            decreases self.keys.len() - i,
        {
            assert(keys.take(i + 1).drop_last() =~= keys.take(i as int));
            let same = if self.caseless {
                same_caseless(self.keys[i].as_str(), key)
            } else {
                same_text(self.keys[i].as_str(), key)
            };
            if same {
                proof {
                    lemma_position_prefix(self.caseless, keys, key@, i + 1);
                }
                return Some(i);
            }
            i += 1;
        }
        assert(keys.take(self.keys.len() as int) =~= keys);
        None
    }

    /// The value of the key `key`, where the dictionary has it.
    pub fn get(&self, key: &str) -> (res: Option<&String>)
        requires
            self.wf(),
        ensures
            match res {
                Some(value) => self@.get(key@) == Some(value@),
                None => self@.get(key@) is None,
            },
    {
        match self.find(key) {
            Some(i) => Some(&self.values[i]),
            None => None,
        }
    }

    /// Gives the key `key` the value `value`.
    pub fn insert(&mut self, key: String, value: String)
        requires
            old(self).wf(),
        ensures
            final(self)@ == old(self)@.insert(key@, value@),
            final(self).wf(),
    {
        match self.find(key.as_str()) {
            Some(i) => {
                let ghost before = texts(self.values@);
                self.values.set(i, value);
                assert(texts(self.values@) =~= before.update(i as int, value@));
            },
            None => {
                let ghost keys = texts(self.keys@);
                let ghost values = texts(self.values@);
                self.keys.push(key);
                self.values.push(value);
                assert(texts(self.keys@) =~= keys.push(key@));
                assert(texts(self.values@) =~= values.push(value@));
            },
        }
    }
}

/// A key found among the first `n` keys is found among all of them, at the same place.
pub proof fn lemma_position_prefix(caseless: bool, keys: Seq<Seq<char>>, key: Seq<char>, n: int)
    requires
        0 <= n <= keys.len(),
        position(caseless, keys.take(n), key) >= 0,
    ensures
        position(caseless, keys, key) == position(caseless, keys.take(n), key),
    decreases keys.len() - n,
{
    if n < keys.len() {
        assert(keys.take(n + 1).drop_last() =~= keys.take(n));
        lemma_position_prefix(caseless, keys, key, n + 1);
    } else {
        assert(keys.take(n) =~= keys);
    }
}

} // verus!
