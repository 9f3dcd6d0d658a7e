//! A trie over keys of binary digits, four digits to a level.

use vstd::prelude::*;

verus! {

/// What a value stored in a trie must be.
pub trait TrieData: Clone + Copy + Eq + PartialEq {

}

impl<T> TrieData for T where T: Clone + Copy + Eq + PartialEq {

}

/// A node of the trie: its value, if it has one, the sum of what the
/// insertions through it returned, and its 16 children.
pub struct Trie<T: TrieData> {
    /// The value kept in the node, if it keeps one.
    pub data: Option<T>,
    depth: u32,
    children: Vec<Option<Box<Trie<T>>>>,
}

/// How far a key matches.
#[derive(Clone, Copy, Debug, PartialEq, Eq)]
pub enum IndexStatus {
    /// The key leads to a node that keeps a value.
    FullMatch,
    /// The key leads to a node that keeps no value.
    StartingMatch,
    /// The key leads to no node.
    NoMatch,
}

/// What a trie is: a node with its value, its depth and its children, each a
/// trie or nothing.
pub struct Shape<T> {
    pub data: Option<T>,
    pub depth: nat,
    pub children: Seq<Option<Shape<T>>>,
}

/// The trie without a value and without children.
pub open spec fn empty_shape<T>() -> Shape<T> {
    Shape { data: None, depth: 0, children: Seq::new(16, |i: int| None) }
}

/// Whether every node has 16 places for children.
pub open spec fn shape_wf<T>(s: Shape<T>) -> bool
    decreases s,
{
    &&& s.children.len() == 16
    &&& forall|i: int|
        0 <= i < s.children.len() && (#[trigger] s.children[i]) is Some ==> shape_wf(s.children[i]->0)
}

/// What the byte `i` of `key` counts: its distance from `b'0'`, or nothing
/// where the key is shorter.
pub open spec fn digit(key: Seq<u8>, i: int) -> int {
    if 0 <= i < key.len() {
        key[i] - 48
    } else {
        0
    }
}

/// The number that the first four digits of `key` write in base two, the first
/// digit counting least.
pub open spec fn group_id(key: Seq<u8>) -> int {
    digit(key, 0) + 2 * digit(key, 1) + 4 * digit(key, 2) + 8 * digit(key, 3)
}

/// Whether the first four bytes of `key`, or all where it is shorter, are
/// digits: `b'0'` or above.
pub open spec fn leading_digits(key: Seq<u8>) -> bool {
    forall|i: int| 0 <= i < key.len() && i < 4 ==> #[trigger] key[i] >= 48
}

/// What the insertion of a value under `key` returns: 1 where the key is made
/// of whole groups of four digits, 9999 where not.
pub open spec fn add_result(key: Seq<u8>) -> nat {
    if key.len() % 4 == 0 {
        1
    } else {
        9999
    }
}

/// The child `i`, or the empty trie where there is none.
pub open spec fn child_or_empty<T>(s: Shape<T>, i: int) -> Shape<T> {
    match s.children[i] {
        Some(c) => c,
        None => empty_shape(),
    }
}

/// The trie after the insertion of `value` under `key`.
///
/// The empty key puts the value into the node. Any other key makes sure of the
/// child that its first group names and raises the depth of the node by what
/// the insertion returns; a key of four digits or more goes on in that child
/// with the rest of the key.
pub open spec fn added<T>(s: Shape<T>, value: T, key: Seq<u8>) -> Shape<T>
    decreases key.len(),
{
    if key.len() == 0 {
        Shape { data: Some(value), depth: s.depth, children: s.children }
    } else {
        let index = group_id(key);
        let child = child_or_empty(s, index);
        Shape {
            data: s.data,
            depth: s.depth + add_result(key),
            children: s.children.update(
                index,
                Some(
                    if key.len() >= 4 {
                        added(child, value, key.skip(4))
                    } else {
                        child
                    },
                ),
            ),
        }
    }
}

/// Whether a value can be inserted under `key`: on the way the groups are made
/// of digits and name one of the 16 children, and the depths stay within 32 bits.
pub open spec fn can_add<T>(s: Shape<T>, key: Seq<u8>) -> bool
    decreases key.len(),
{
    if key.len() == 0 {
        true
    } else {
        &&& leading_digits(key)
        &&& group_id(key) < 16
        &&& s.depth + add_result(key) <= u32::MAX
        &&& key.len() >= 4 ==> can_add(child_or_empty(s, group_id(key)), key.skip(4))
    }
}

/// How far `key` matches, read one digit to a level.
pub open spec fn index_status<T>(s: Shape<T>, key: Seq<u8>) -> IndexStatus
    decreases key.len(),
{
    if key.len() == 0 {
        if s.data is Some {
            IndexStatus::FullMatch
        } else {
            IndexStatus::StartingMatch
        }
    } else {
        match s.children[key[0] - 48] {
            Some(c) => index_status(c, key.skip(1)),
            None => IndexStatus::NoMatch,
        }
    }
}

/// Whether `key` can be matched one digit to a level: every byte on the way
/// names one of the 16 children.
pub open spec fn can_index<T>(s: Shape<T>, key: Seq<u8>) -> bool
    decreases key.len(),
{
    if key.len() == 0 {
        true
    } else {
        &&& 48 <= key[0] < 64
        &&& s.children[key[0] - 48] is Some ==> can_index(s.children[key[0] - 48]->0, key.skip(1))
    }
}

/// The node that `key` leads to, four digits to a level. A key shorter than
/// four digits leads nowhere further.
pub open spec fn sub_trie<T>(s: Shape<T>, key: Seq<u8>) -> Option<Shape<T>>
    decreases key.len(),
{
    if key.len() >= 4 {
        match s.children[group_id(key)] {
            Some(c) => sub_trie(c, key.skip(4)),
            None => None,
        }
    } else {
        Some(s)
    }
}

/// Whether the node that `key` leads to can be looked for: on the way the
/// groups are made of digits and name one of the 16 children.
pub open spec fn can_descend<T>(s: Shape<T>, key: Seq<u8>) -> bool
    decreases key.len(),
{
    &&& leading_digits(key)
    &&& key.len() >= 4 ==> {
        &&& group_id(key) < 16
        &&& s.children[group_id(key)] is Some ==> can_descend(s.children[group_id(key)]->0, key.skip(4))
    }
}

/// Whether the first four bytes of `key`, or all where it is shorter, are digits.
pub fn has_leading_digits(key: &[u8]) -> (b: bool)
    ensures
        b == leading_digits(key@),
{
    let length = if key.len() < 4 {
        key.len()
    } else {
        4
    };
    let mut i: usize = 0;
    while i < length
        invariant
            i <= length,
            length <= 4,
            length <= key@.len(),
            length == key@.len() || length == 4,
            forall|j: int| 0 <= j < i ==> #[trigger] key@[j] >= 48,
        decreases length - i,
    {
        if key[i] < 48 {
            proof {
                assert(key@[i as int] < 48);
            }
            return false;
        }
        i += 1;
    }
    true
}

/// The index that the first four digits of `key` write, the first digit
/// counting least.
pub fn group_index(key: &[u8]) -> (id: usize)
    requires
        leading_digits(key@),
    ensures
        id == group_id(key@),
{
    let length = if key.len() < 4 {
        key.len()
    } else {
        4
    };
    let mut id: usize = 0;
    let mut i: usize = 0;
    while i < length
        invariant
            i <= length,
            length <= 4,
            length <= key@.len(),
            length == key@.len() || length == 4,
            leading_digits(key@),
            id == (if i > 0 {
                digit(key@, 0)
            } else {
                0
            }) + (if i > 1 {
                2 * digit(key@, 1)
            } else {
                0
            }) + (if i > 2 {
                4 * digit(key@, 2)
            } else {
                0
            }) + (if i > 3 {
                8 * digit(key@, 3)
            } else {
                0
            }),
        decreases length - i,
    {
        let temp: usize = (key[i] - 48) as usize;
        proof {
            assert(key@[i as int] >= 48);
            assert(temp << i == temp * (if i == 0 {
                1usize
            } else if i == 1 {
                2usize
            } else if i == 2 {
                4usize
            } else {
                8usize
            })) by (bit_vector)
                requires
                    temp < 256,
                    i < 4,
            ;
        }
        id += temp << i;
        i += 1;
    }
    id
}

impl<T: TrieData> Trie<T> {
    /// What the trie is.
    pub closed spec fn shape(&self) -> Shape<T>
        decreases self,
    {
        Shape {
            data: self.data,
            depth: self.depth as nat,
            children: Seq::new(
                self.children@.len(),
                |i: int|
                    if 0 <= i < self.children@.len() && self.children@[i] is Some {
                        Some(self.children@[i]->0.shape())
                    } else {
                        None
                    },
            ),
        }
    }

    /// A trie without a value and without children.
    pub fn new() -> (trie: Self)
        ensures
            trie@ == empty_shape::<T>(),
            shape_wf(trie@),
    {
        let mut children: Vec<Option<Box<Trie<T>>>> = Vec::with_capacity(16);
        let mut i: usize = 0;
        while i < 16
            invariant
                i <= 16,
                children@.len() == i,
                forall|j: int| 0 <= j < i ==> children@[j] is None,
            decreases 16 - i,
        {
            children.push(None);
            i += 1;
        }
        let trie = Trie { data: None, depth: 0, children };
        proof {
            assert(trie@.children =~= empty_shape::<T>().children);
        }
        trie
    }

    /// The sum of what the insertions through this node returned.
    pub fn depth(&self) -> (depth: u32)
        ensures
            depth == self@.depth,
    {
        self.depth
    }

    /// Inserts `value` under `key` and returns 1 where the key is made of whole
    /// groups of four digits. A key with a shorter last group makes sure of the
    /// nodes on its way, stores no value and returns 9999.
    pub fn add_value(&mut self, value: T, key: &[u8]) -> (ret: u32)
        requires
            shape_wf(old(self)@),
            can_add(old(self)@, key@),
        ensures
            shape_wf(final(self)@),
            final(self)@ == added(old(self)@, value, key@),
            ret == add_result(key@),
        decreases key@.len(),
    {
        if key.len() == 0 {
            self.data = Some(value);
            proof {
                assert(self@.children =~= old(self)@.children);
            }
            return 1;
        }
        let index = group_index(key);
        let ghost before = self@;
        if self.children[index].is_none() {
            self.children[index] = Some(Box::new(Trie::new()));
        }
        let ghost made = self@;
        proof {
            assert(made.children =~= before.children.update(
                index as int,
                Some(child_or_empty(before, index as int)),
            ));
        }
        let ret: u32 = if key.len() >= 4 {
            let rest = vstd::slice::slice_subrange(key, 4, key.len());
            proof {
                assert(rest@ =~= key@.skip(4));
            }
            match &mut self.children[index] {
                Some(child) => child.add_value(value, rest),
                None => 0,
            }
        } else {
            9999
        };
        self.depth += ret;
        proof {
            assert(self@.children =~= added(before, value, key@).children);
        }
        ret
    }

    /// Whether a value can be inserted under `key`.
    pub fn accepts_value(&self, key: &[u8]) -> (b: bool)
        requires
            shape_wf(self@),
        ensures
            b == can_add(self@, key@),
        decreases key@.len(),
    {
        if key.len() == 0 {
            return true;
        }
        if !has_leading_digits(key) {
            return false;
        }
        let index = group_index(key);
        let ret: u32 = if key.len() % 4 == 0 {
            1
        } else {
            9999
        };
        if index >= 16 || self.depth > u32::MAX - ret {
            return false;
        }
        if key.len() < 4 {
            return true;
        }
        let rest = vstd::slice::slice_subrange(key, 4, key.len());
        proof {
            assert(rest@ =~= key@.skip(4));
        }
        proof {
            assert(self@.children[index as int] is Some ==> shape_wf(self@.children[index as int]->0));
        }
        match &self.children[index] {
            Some(child) => child.accepts_value(rest),
            None => {
                let fresh: Trie<T> = Trie::new();
                fresh.accepts_value(rest)
            },
        }
    }

    /// Whether `key` can be matched one digit to a level.
    pub fn accepts_match(&self, key: &[u8]) -> (b: bool)
        requires
            shape_wf(self@),
        ensures
            b == can_index(self@, key@),
        decreases key@.len(),
    {
        if key.len() == 0 {
            return true;
        }
        if key[0] < 48 || key[0] >= 64 {
            return false;
        }
        let index = (key[0] - 48) as usize;
        proof {
            assert(self@.children[index as int] is Some ==> shape_wf(self@.children[index as int]->0));
        }
        match &self.children[index] {
            Some(child) => {
                let rest = vstd::slice::slice_subrange(key, 1, key.len());
                proof {
                    assert(rest@ =~= key@.skip(1));
                }
                child.accepts_match(rest)
            },
            None => true,
        }
    }

    /// Whether the node that `key` leads to can be looked for.
    pub fn accepts_descent(&self, key: &[u8]) -> (b: bool)
        requires
            shape_wf(self@),
        ensures
            b == can_descend(self@, key@),
        decreases key@.len(),
    {
        if !has_leading_digits(key) {
            return false;
        }
        if key.len() < 4 {
            return true;
        }
        let index = group_index(key);
        if index >= 16 {
            return false;
        }
        proof {
            assert(self@.children[index as int] is Some ==> shape_wf(self@.children[index as int]->0));
        }
        match &self.children[index] {
            Some(child) => {
                let rest = vstd::slice::slice_subrange(key, 4, key.len());
                proof {
                    assert(rest@ =~= key@.skip(4));
                }
                child.accepts_descent(rest)
            },
            None => true,
        }
    }

    /// How far `key` matches, read one digit to a level.
    pub fn index_base(&self, key: &[u8]) -> (status: IndexStatus)
        requires
            shape_wf(self@),
            can_index(self@, key@),
        ensures
            status == index_status(self@, key@),
        decreases key@.len(),
    {
        if key.len() == 0 {
            match self.data {
                Some(_) => IndexStatus::FullMatch,
                None => IndexStatus::StartingMatch,
            }
        } else {
            let index = (key[0] - 48) as usize;
            match &self.children[index] {
                Some(a) => {
                    let rest = vstd::slice::slice_subrange(key, 1, key.len());
                    proof {
                        assert(rest@ =~= key@.skip(1));
                    }
                    a.index_base(rest)
                },
                None => IndexStatus::NoMatch,
            }
        }
    }

    /// The node that `key` leads to, four digits to a level.
    pub fn get_sub_trie<'a>(&'a self, key: &[u8]) -> (sub: Option<&'a Trie<T>>)
        requires
            shape_wf(self@),
            can_descend(self@, key@),
        ensures
            match sub {
                Some(t) => sub_trie(self@, key@) == Some(t@),
                None => sub_trie(self@, key@) is None,
            },
        decreases key@.len(),
    {
        let index = group_index(key);
        if key.len() >= 4 {
            match &self.children[index] {
                Some(a) => {
                    let rest = vstd::slice::slice_subrange(key, 4, key.len());
                    proof {
                        assert(rest@ =~= key@.skip(4));
                    }
                    a.get_sub_trie(rest)
                },
                None => None,
            }
        } else {
            Some(self)
        }
    }
}

impl<T: TrieData> View for Trie<T> {
    type V = Shape<T>;

    /// What the trie is.
    open spec fn view(&self) -> Shape<T> {
        self.shape()
    }
}

/// A key made of whole groups of four digits leads to the node that keeps the
/// value inserted under it.
pub proof fn law_added_is_found<T>(s: Shape<T>, value: T, key: Seq<u8>)
    requires
        shape_wf(s),
        can_add(s, key),
        key.len() % 4 == 0,
    ensures
        sub_trie(added(s, value, key), key) is Some,
        sub_trie(added(s, value, key), key)->0.data == Some(value),
    decreases key.len(),
{
    if key.len() > 0 {
        let index = group_id(key);
        assert(key[0] >= 48 && key[1] >= 48 && key[2] >= 48 && key[3] >= 48);
        let child = child_or_empty(s, index);
        if s.children[index] is None {
            assert(shape_wf(empty_shape::<T>()));
        }
        law_added_is_found(child, value, key.skip(4));
    }
}

} // verus!
