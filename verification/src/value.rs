//! The decoded value tree and its mathematical model.

use vstd::prelude::*;

verus! {

/// The mathematical model of a value: what contracts speak about.
pub enum Tree {
    Null,
    Boolean(bool),
    Number(int),
    String(Seq<char>),
    Array(Seq<Tree>),
    /// Key/value pairs in insertion order.
    Object(Seq<(Seq<char>, Tree)>),
}

/// Whether `entries[i]` is the first pair whose key is `key`.
pub open spec fn first_with_key(entries: Seq<(Seq<char>, Tree)>, key: Seq<char>, i: int) -> bool {
    &&& 0 <= i < entries.len()
    &&& entries[i].0 == key
    &&& forall|j: int| 0 <= j < i ==> (#[trigger] entries[j]).0 != key
}

/// Whether some pair of `entries` has the key `key`.
pub open spec fn has_key(entries: Seq<(Seq<char>, Tree)>, key: Seq<char>) -> bool {
    exists|i: int| first_with_key(entries, key, i)
}

/// The index of the first pair of `entries` whose key is `key`.
pub open spec fn key_index(entries: Seq<(Seq<char>, Tree)>, key: Seq<char>) -> int {
    choose|i: int| first_with_key(entries, key, i)
}

/// `entries` after inserting `key` with `value`: a pair with that key has
/// its value replaced where it stands, otherwise the pair is appended.
pub open spec fn put(entries: Seq<(Seq<char>, Tree)>, key: Seq<char>, value: Tree) -> Seq<
    (Seq<char>, Tree),
> {
    if has_key(entries, key) {
        entries.update(key_index(entries, key), (key, value))
    } else {
        entries.push((key, value))
    }
}

/// Whether no two pairs of `entries` share a key.
pub open spec fn distinct_keys(entries: Seq<(Seq<char>, Tree)>) -> bool {
    forall|i: int, j: int|
        0 <= i < j < entries.len() ==> (#[trigger] entries[i]).0 != (#[trigger] entries[j]).0
}

impl Tree {
    /// Whether no object anywhere in the tree holds a key twice.
    pub open spec fn wf(self) -> bool
        decreases self,
    {
        match self {
            Tree::Array(items) => forall|i: int|
                0 <= i < items.len() ==> (#[trigger] items[i]).wf(),
            Tree::Object(entries) => distinct_keys(entries) && forall|i: int|
                0 <= i < entries.len() ==> (#[trigger] entries[i]).1.wf(),
            _ => true,
        }
    }

    /// Whether the tree is an object that stores a member under `key`.
    pub open spec fn has_member(self, key: Seq<char>) -> bool {
        match self {
            Tree::Object(entries) => has_key(entries, key),
            _ => false,
        }
    }

    /// The member stored under `key`, or `Null` where the tree is not an
    /// object or has no such key.
    pub open spec fn member(self, key: Seq<char>) -> Tree {
        match self {
            Tree::Object(entries) => if has_key(entries, key) {
                entries[key_index(entries, key)].1
            } else {
                Tree::Null
            },
            _ => Tree::Null,
        }
    }

    /// The text of a string, nothing for any other tree.
    pub open spec fn as_text(self) -> Option<Seq<char>> {
        match self {
            Tree::String(s) => Some(s),
            _ => None,
        }
    }

    /// The number as a `u32`, where the tree is a number in that range.
    pub open spec fn as_u32(self) -> Option<u32> {
        match self {
            Tree::Number(n) => if 0 <= n <= u32::MAX {
                Some(n as u32)
            } else {
                None
            },
            _ => None,
        }
    }

    /// The number as a `u8`, where the tree is a number in that range.
    pub open spec fn as_u8(self) -> Option<u8> {
        match self {
            Tree::Number(n) => if 0 <= n <= u8::MAX {
                Some(n as u8)
            } else {
                None
            },
            _ => None,
        }
    }
}

/// The first pair with a key decides what `key_index` is.
pub proof fn lemma_key_index(entries: Seq<(Seq<char>, Tree)>, key: Seq<char>, i: int)
    requires
        first_with_key(entries, key, i),
    ensures
        has_key(entries, key),
        key_index(entries, key) == i,
{
    let c = key_index(entries, key);
    assert(first_with_key(entries, key, c));
    if c < i {
        assert(entries[c].0 != key);
    }
    if i < c {
        assert(entries[i].0 != key);
    }
}

/// A key that no pair holds is absent.
pub proof fn lemma_key_absent(entries: Seq<(Seq<char>, Tree)>, key: Seq<char>)
    requires
        forall|j: int| 0 <= j < entries.len() ==> (#[trigger] entries[j]).0 != key,
    ensures
        !has_key(entries, key),
{
}

/// Insertion keeps the keys of an object distinct.
pub proof fn lemma_put_distinct(entries: Seq<(Seq<char>, Tree)>, key: Seq<char>, value: Tree)
    requires
        distinct_keys(entries),
    ensures
        distinct_keys(put(entries, key, value)),
{
    let after = put(entries, key, value);
    if has_key(entries, key) {
        let c = key_index(entries, key);
        assert(first_with_key(entries, key, c));
        assert forall|i: int, j: int| 0 <= i < j < after.len() implies (#[trigger] after[i]).0 != (
        #[trigger] after[j]).0 by {
            assert(entries[i].0 != entries[j].0);
        }
    } else {
        assert forall|i: int, j: int| 0 <= i < j < after.len() implies (#[trigger] after[i]).0 != (
        #[trigger] after[j]).0 by {
            if j < entries.len() {
                assert(entries[i].0 != entries[j].0);
            } else {
                if entries[i].0 == key {
                    lemma_has_key(entries, key, i);
                }
            }
        }
    }
}

/// A key that some pair holds is present.
pub proof fn lemma_has_key(entries: Seq<(Seq<char>, Tree)>, key: Seq<char>, j: int)
    requires
        0 <= j < entries.len(),
        entries[j].0 == key,
    ensures
        has_key(entries, key),
    decreases j,
{
    if forall|k: int| 0 <= k < j ==> (#[trigger] entries[k]).0 != key {
        assert(first_with_key(entries, key, j));
    } else {
        let k = choose|k: int| 0 <= k < j && (#[trigger] entries[k]).0 == key;
        lemma_has_key(entries, key, k);
    }
}

/// One key/value pair of an object.
#[derive(Debug, PartialEq, Eq)]
pub struct Member {
    pub key: String,
    pub value: Value,
}

/// A decoded value.
#[derive(Debug, PartialEq, Eq)]
pub enum Value {
    Null,
    Boolean(bool),
    Number(i64),
    String(String),
    Array(Vec<Value>),
    /// Members in insertion order.
    Object(Vec<Member>),
}

/// The model of a value.
pub open spec fn tree_of(v: Value) -> Tree
    decreases v,
{
    match v {
        Value::Null => Tree::Null,
        Value::Boolean(b) => Tree::Boolean(b),
        Value::Number(n) => Tree::Number(n as int),
        Value::String(s) => Tree::String(s@),
        Value::Array(items) => Tree::Array(items_view(items@)),
        Value::Object(members) => Tree::Object(members_view(members@)),
    }
}

/// The models of a run of values, in order.
pub open spec fn items_view(items: Seq<Value>) -> Seq<Tree>
    decreases items,
{
    if items.len() == 0 {
        Seq::empty()
    } else {
        items_view(items.drop_last()).push(tree_of(items.last()))
    }
}

/// The modelled pairs of a run of members, in order.
pub open spec fn members_view(members: Seq<Member>) -> Seq<(Seq<char>, Tree)>
    decreases members,
{
    if members.len() == 0 {
        Seq::empty()
    } else {
        members_view(members.drop_last()).push((members.last().key@, tree_of(members.last().value)))
    }
}

impl View for Value {
    type V = Tree;

    open spec fn view(&self) -> Tree {
        tree_of(*self)
    }
}

/// The models of a run of values stand at the places of the values.
pub proof fn lemma_items_view(items: Seq<Value>)
    ensures
        items_view(items).len() == items.len(),
        forall|i: int| 0 <= i < items.len() ==> (#[trigger] items_view(items)[i]) == items[i]@,
    decreases items.len(),
{
    if items.len() > 0 {
        lemma_items_view(items.drop_last());
    }
}

/// The modelled pairs of a run of members stand at the places of the members.
pub proof fn lemma_members_view(members: Seq<Member>)
    ensures
        members_view(members).len() == members.len(),
        forall|i: int|
            0 <= i < members.len() ==> (#[trigger] members_view(members)[i]) == (
                members[i].key@,
                members[i].value@,
            ),
    decreases members.len(),
{
    if members.len() > 0 {
        lemma_members_view(members.drop_last());
    }
}

/// Appending a value appends its model.
pub proof fn lemma_items_view_push(items: Seq<Value>, v: Value)
    ensures
        items_view(items.push(v)) == items_view(items).push(v@),
{
    assert(items.push(v).drop_last() =~= items);
}

/// Inserts `key` with `value` into the members of an object: a member with
/// that key has its value replaced where it stands, otherwise the member is
/// appended.
pub fn insert_member(members: &mut Vec<Member>, key: String, value: Value)
    ensures
        members_view(final(members)@) == put(members_view(old(members)@), key@, value@),
{
    let ghost before = members_view(members@);
    proof {
        lemma_members_view(members@);
    }
    let mut i: usize = 0;
    while i < members.len()
        invariant
            i <= members@.len(),
            members@ == old(members)@,
            before == members_view(members@),
            before.len() == members@.len(),
            forall|j: int|
                0 <= j < members@.len() ==> (#[trigger] before[j]) == (
                    members@[j].key@,
                    members@[j].value@,
                ),
            forall|j: int| 0 <= j < i ==> (#[trigger] before[j]).0 != key@,
        decreases members@.len() - i,
    {
        if members[i].key == key {
            proof {
                assert(before[i as int].0 == key@);
                assert(first_with_key(before, key@, i as int));
                lemma_key_index(before, key@, i as int);
            }
            members[i].value = value;
            proof {
                lemma_members_view(members@);
                assert(members_view(members@) =~= before.update(i as int, (key@, value@)));
            }
            return ;
        }
        i = i + 1;
    }
    proof {
        lemma_key_absent(before, key@);
    }
    members.push(Member { key, value });
    proof {
        lemma_members_view(members@);
        assert(members_view(members@) =~= before.push((key@, value@)));
    }
}

impl Value {
    /// The member stored under `key`, if the value is an object that has one.
    pub fn get(&self, key: &str) -> (r: Option<&Value>)
        ensures
            match r {
                Some(v) => self@.has_member(key@) && v@ == self@.member(key@),
                None => !self@.has_member(key@),
            },
    {
        match self {
            Value::Object(members) => {
                let wanted: String = key.to_owned();
                let ghost entries = members_view(members@);
                proof {
                    lemma_members_view(members@);
                }
                let mut i: usize = 0;
                while i < members.len()
                    invariant
                        i <= members@.len(),
                        wanted@ == key@,
                        self@ == Tree::Object(entries),
                        entries == members_view(members@),
                        entries.len() == members@.len(),
                        forall|j: int|
                            0 <= j < members@.len() ==> (#[trigger] entries[j]) == (
                                members@[j].key@,
                                members@[j].value@,
                            ),
                        forall|j: int| 0 <= j < i ==> (#[trigger] entries[j]).0 != key@,
                    decreases members@.len() - i,
                {
                    if members[i].key == wanted {
                        proof {
                            assert(entries[i as int].0 == key@);
                            assert(first_with_key(entries, key@, i as int));
                            lemma_key_index(entries, key@, i as int);
                            assert(entries[i as int].1 == members@[i as int].value@);
                        }
                        return Some(&members[i].value);
                    }
                    i = i + 1;
                }
                proof {
                    lemma_key_absent(entries, key@);
                }
                None
            },
            _ => None,
        }
    }

    /// The text, if the value is a string.
    pub fn as_str(&self) -> (r: Option<&str>)
        ensures
            match r {
                Some(s) => self@.as_text() == Some(s@),
                None => self@.as_text() is None,
            },
    {
        match self {
            Value::String(s) => Some(s.as_str()),
            _ => None,
        }
    }

    /// The number as a `u32`, if the value is a number in that range.
    pub fn as_u32(&self) -> (r: Option<u32>)
        ensures
            r == self@.as_u32(),
    {
        match self {
            Value::Number(n) => if 0 <= *n && *n <= 0xffff_ffff {
                Some(*n as u32)
            } else {
                None
            },
            _ => None,
        }
    }

    /// The number as a `u8`, if the value is a number in that range.
    pub fn as_u8(&self) -> (r: Option<u8>)
        ensures
            r == self@.as_u8(),
    {
        match self {
            Value::Number(n) => if 0 <= *n && *n <= 0xff {
                Some(*n as u8)
            } else {
                None
            },
            _ => None,
        }
    }
}

} // verus!
