//! A trie over keys of binary digits, flattened to one array.
//!
//! The nodes of a level lie side by side, each followed in the next level by
//! the block of its children. A key walks from level to level by groups of
//! digits; where the walk ends, there the key's value is kept.

use vstd::prelude::*;

verus! {

/// What a value stored in a trie must be.
pub trait TrieData: Clone + Copy + Eq + PartialEq {

}

impl<T> TrieData for T where T: Clone + Copy + Eq + PartialEq {

}

/// The number that the digits of `digits` write in base two, the first digit
/// counting most. A digit is a byte from `b'0'` on and counts as its distance
/// from `b'0'`.
pub open spec fn group_value(digits: Seq<u8>) -> int
    decreases digits.len(),
{
    if digits.len() == 0 {
        0
    } else {
        2 * group_value(digits.drop_last()) + (digits.last() - 48)
    }
}

/// The first `group` bytes of `key`, or all of `key` where it is shorter.
pub open spec fn group_of(key: Seq<u8>, group: nat) -> Seq<u8> {
    if key.len() > group {
        key.take(group as int)
    } else {
        key
    }
}

/// Whether every byte is a digit: `b'0'` or above.
pub open spec fn all_digits(digits: Seq<u8>) -> bool {
    forall|i: int| 0 <= i < digits.len() ==> #[trigger] digits[i] >= 48
}

/// Whether the first group of `key` can be read as an index: its bytes are
/// digits and the number they write fits the machine.
pub open spec fn readable(key: Seq<u8>, group: nat) -> bool {
    all_digits(group_of(key, group)) && group_value(group_of(key, group)) <= usize::MAX
}

/// The number of nodes in the levels 0 to `depth` of a trie whose nodes have
/// `key_length` children each: the sum of the powers of `key_length` from the
/// first to the power `depth + 1`.
pub open spec fn level_end(key_length: nat, depth: int) -> nat
    decreases depth + 1,
{
    if depth < 0 {
        0
    } else {
        key_length * (level_end(key_length, depth - 1) + 1)
    }
}

/// A prefix of digits writes no greater number than the whole.
pub proof fn lemma_group_value_grows(digits: Seq<u8>, n: int)
    requires
        all_digits(digits),
        0 <= n <= digits.len(),
    ensures
        0 <= group_value(digits.take(n)) <= group_value(digits),
    decreases digits.len() - n,
{
    if n == digits.len() {
        assert(digits.take(n) =~= digits);
        lemma_group_value_nonneg(digits);
    } else {
        lemma_group_value_grows(digits, n + 1);
        let longer = digits.take(n + 1);
        assert(longer.drop_last() =~= digits.take(n));
        assert(longer.last() == digits[n]);
        lemma_group_value_nonneg(digits.take(n));
        assert(all_digits(digits.take(n)));
    }
}

/// Digits write a number that is not negative.
pub proof fn lemma_group_value_nonneg(digits: Seq<u8>)
    requires
        all_digits(digits),
    ensures
        0 <= group_value(digits),
    decreases digits.len(),
{
    if digits.len() > 0 {
        assert(all_digits(digits.drop_last()));
        lemma_group_value_nonneg(digits.drop_last());
    }
}

/// The levels never shrink, and a level of a trie with children has a node.
pub proof fn lemma_level_end_grows(key_length: nat, depth: int)
    requires
        key_length >= 1,
        depth >= 0,
    ensures
        level_end(key_length, depth) >= level_end(key_length, depth - 1) + 1,
        level_end(key_length, depth) >= depth + 1,
    decreases depth,
{
    if depth > 0 {
        lemma_level_end_grows(key_length, depth - 1);
    }
    let below = level_end(key_length, depth - 1);
    assert(key_length * (below + 1) >= below + 1) by (nonlinear_arith)
        requires
            key_length >= 1,
            below >= 0,
    ;
}

/// The depth of the node at `index` in a trie whose nodes have `key_length`
/// children each: the level whose block of the array holds `index`.
pub fn get_depth(key_length: usize, index: usize) -> (depth: usize)
    requires
        key_length >= 1,
    ensures
        level_end(key_length as nat, depth - 1) <= index < level_end(key_length as nat, depth as int),
{
    let mut depth: usize = 0;
    let mut multitude: usize = key_length;
    let mut compare: usize = key_length;
    proof {
        assert(level_end(key_length as nat, 0) == key_length) by {
            assert(level_end(key_length as nat, -1) == 0);
            assert(key_length * (0 + 1) == key_length) by (nonlinear_arith);
        }
    }
    while index >= compare
        invariant
            key_length >= 1,
            multitude >= 1,
            depth < compare,
            compare == level_end(key_length as nat, depth as int),
            multitude == compare - level_end(key_length as nat, depth - 1),
            level_end(key_length as nat, depth - 1) <= index,
        decreases
                if index >= compare {
                    index - compare + 1
                } else {
                    0
                },
    {
        let ghost below = level_end(key_length as nat, depth - 1);
        proof {
            lemma_level_end_grows(key_length as nat, depth + 1);
            assert(level_end(key_length as nat, depth + 1) == compare + multitude * key_length) by {
                assert(key_length * (compare + 1) == compare + (compare - below) * key_length)
                    by (nonlinear_arith)
                    requires
                        compare == key_length * (below + 1),
                ;
            }
            assert(multitude * key_length >= 1) by (nonlinear_arith)
                requires
                    multitude >= 1,
                    key_length >= 1,
            ;
        }
        depth += 1;
        match multitude.checked_mul(key_length) {
            Some(m) => {
                multitude = m;
            },
            None => {
                return depth;
            },
        }
        match compare.checked_add(multitude) {
            Some(c) => {
                compare = c;
            },
            None => {
                return depth;
            },
        }
    }
    depth
}

/// The index that the first group of `key` writes: the number that its first
/// `group` digits write, or all its digits where it has fewer.
pub fn read_group(key: &[u8], group: usize) -> (id: usize)
    requires
        readable(key@, group as nat),
    ensures
        id == group_value(group_of(key@, group as nat)),
{
    let length = if key.len() > group {
        group
    } else {
        key.len()
    };
    let ghost digits = group_of(key@, group as nat);
    let mut id: usize = 0;
    let mut i: usize = 0;
    while i < length
        invariant
            i <= length,
            length == digits.len(),
            length <= key@.len(),
            forall|k: int| 0 <= k < length ==> digits[k] == key@[k],
            all_digits(digits),
            group_value(digits) <= usize::MAX,
            id == group_value(digits.take(i as int)),
        decreases length - i,
    {
        proof {
            lemma_group_value_grows(digits, i + 1);
            let longer = digits.take(i + 1);
            assert(longer.drop_last() =~= digits.take(i as int));
            assert(longer.last() == digits[i as int]);
        }
        let temp = (key[i] - 48) as usize;
        id = 2 * id + temp;
        i += 1;
    }
    proof {
        assert(digits.take(length as int) =~= digits);
    }
    id
}

/// Whether the first group of `key` can be read as an index.
pub fn can_read(key: &[u8], group: usize) -> (b: bool)
    ensures
        b == readable(key@, group as nat),
{
    let length = if key.len() > group {
        group
    } else {
        key.len()
    };
    let ghost digits = group_of(key@, group as nat);
    let mut id: usize = 0;
    let mut i: usize = 0;
    while i < length
        invariant
            i <= length,
            length == digits.len(),
            length <= key@.len(),
            digits == group_of(key@, group as nat),
            forall|k: int| 0 <= k < length ==> digits[k] == key@[k],
            all_digits(digits.take(i as int)),
            id == group_value(digits.take(i as int)),
        decreases length - i,
    {
        let ghost longer = digits.take(i + 1);
        proof {
            assert(longer.drop_last() =~= digits.take(i as int));
            assert(longer.last() == digits[i as int]);
        }
        proof {
            assert(digits[i as int] == key@[i as int]);
        }
        if key[i] < 48 {
            proof {
                assert(!all_digits(digits));
            }
            return false;
        }
        proof {
            assert forall|k: int| 0 <= k < longer.len() implies #[trigger] longer[k] >= 48 by {
                if k < i {
                    assert(digits.take(i as int)[k] >= 48);
                }
            }
        }
        let temp = (key[i] - 48) as usize;
        if id > (usize::MAX - temp) / 2 {
            proof {
                assert(group_value(longer) == 2 * id + temp);
                if all_digits(digits) {
                    lemma_group_value_grows(digits, i + 1);
                }
            }
            return false;
        }
        id = 2 * id + temp;
        i += 1;
    }
    proof {
        assert(digits.take(length as int) =~= digits);
    }
    true
}

/// A node of the trie.
pub struct SubTrie<T: TrieData> {
    /// The value kept in the node, if it keeps one.
    pub data: Option<T>,
    depth: usize,
    children_offset: Option<usize>,
}

/// A map from keys of binary digits to values.
pub struct ContiguousTrie<T: TrieData> {
    memory: Vec<Option<SubTrie<T>>>,
    key_length: usize,
    key_group: usize,
}

/// Whether the walk of a key goes on from the node `cur`: the node is there
/// and has children further on in the array.
pub closed spec fn goes_on<T: TrieData>(memory: Seq<Option<SubTrie<T>>>, cur: int) -> bool {
    &&& 0 <= cur < memory.len()
    &&& memory[cur] is Some
    &&& memory[cur]->0.children_offset is Some
    &&& memory[cur]->0.children_offset->0 > cur
}

/// The child that the walk of `key` goes on to from the node `cur`, once it
/// has read the first `start` bytes: the child that the next group names.
pub closed spec fn next_of<T: TrieData>(
    memory: Seq<Option<SubTrie<T>>>,
    group: nat,
    key: Seq<u8>,
    cur: int,
    start: int,
) -> int {
    memory[cur]->0.children_offset->0 + group_value(group_of(key.skip(start + group), group))
}

/// What is left of the array behind the node `cur`.
pub closed spec fn ahead<T: TrieData>(memory: Seq<Option<SubTrie<T>>>, cur: int) -> nat {
    if cur < memory.len() {
        (memory.len() - cur) as nat
    } else {
        0
    }
}

/// Where the walk of `key` ends that has come to the node `cur` and has read
/// the first `start` bytes: from a node with children it goes on to the child
/// that the next group of digits names.
pub closed spec fn walk<T: TrieData>(
    memory: Seq<Option<SubTrie<T>>>,
    group: nat,
    key: Seq<u8>,
    cur: int,
    start: int,
) -> int
    decreases ahead(memory, cur),
{
    if goes_on(memory, cur) && next_of(memory, group, key, cur, start) > cur {
        walk(memory, group, key, next_of(memory, group, key, cur, start), start + group)
    } else {
        cur
    }
}

/// Whether the walk of `key` from the node `cur` can be made: the key is long
/// enough for every step, and every group on the way can be read and leads to
/// an index that fits the machine.
pub closed spec fn walkable<T: TrieData>(
    memory: Seq<Option<SubTrie<T>>>,
    group: nat,
    key: Seq<u8>,
    cur: int,
    start: int,
) -> bool
    decreases ahead(memory, cur),
{
    if goes_on(memory, cur) {
        &&& start + group <= key.len()
        &&& readable(key.skip(start + group), group)
        &&& next_of(memory, group, key, cur, start) <= usize::MAX
        &&& next_of(memory, group, key, cur, start) > cur
        &&& walkable(memory, group, key, next_of(memory, group, key, cur, start), start + group)
    } else {
        true
    }
}

/// A step of a walk that can be made leads further on in the array.
proof fn lemma_step_ahead<T: TrieData>(
    memory: Seq<Option<SubTrie<T>>>,
    group: nat,
    key: Seq<u8>,
    cur: int,
    start: int,
)
    requires
        goes_on(memory, cur),
        readable(key.skip(start + group), group),
    ensures
        next_of(memory, group, key, cur, start) > cur,
        next_of(memory, group, key, cur, start) >= memory[cur]->0.children_offset->0,
{
    lemma_group_value_nonneg(group_of(key.skip(start + group), group));
}

impl<T: TrieData> View for ContiguousTrie<T> {
    type V = Map<int, T>;

    /// The places of the array that keep a value, each with its value.
    closed spec fn view(&self) -> Map<int, T> {
        Map::new(
            |i: int| 0 <= i < self.memory@.len() && self.memory@[i] is Some && self.memory@[i]->0.data is Some,
            |i: int| self.memory@[i]->0.data->0,
        )
    }
}

impl<T: TrieData> ContiguousTrie<T> {
    /// The number of digits of a key, which is also the number of children of a node.
    pub closed spec fn spec_key_length(&self) -> nat {
        self.key_length as nat
    }

    /// The number of digits that lead from a node to its child.
    pub closed spec fn spec_key_group(&self) -> nat {
        self.key_group as nat
    }

    /// A node with children has them further on in the array and keeps no
    /// value; a node without children keeps a value.
    pub closed spec fn wf(&self) -> bool {
        &&& self.key_length >= 1
        &&& self.key_group >= 1
        &&& forall|i: int|
            0 <= i < self.memory@.len() && (#[trigger] self.memory@[i]) is Some ==> {
                let node = self.memory@[i]->0;
                &&& node.children_offset is Some ==> node.children_offset->0 > i && node.data is None
                &&& node.children_offset is None ==> node.data is Some
            }
    }

    /// Whether `key` can be looked up: its walk through the array can be made.
    pub closed spec fn accepts(&self, key: Seq<u8>) -> bool {
        &&& readable(key, self.key_group as nat)
        &&& walkable(
            self.memory@,
            self.key_group as nat,
            key,
            group_value(group_of(key, self.key_group as nat)),
            0,
        )
    }

    /// The place of the array where the walk of `key` ends.
    pub closed spec fn index_of(&self, key: Seq<u8>) -> int {
        walk(
            self.memory@,
            self.key_group as nat,
            key,
            group_value(group_of(key, self.key_group as nat)),
            0,
        )
    }

    /// The number of levels of nodes with children.
    pub open spec fn levels(&self) -> int {
        self.spec_key_length() as int / self.spec_key_group() as int - 1
    }

    /// Whether `key` is a key that the trie files: it is made of the digits
    /// `b'0'` and `b'1'`, long enough to lead through every level and not
    /// longer than the groups that are read.
    pub open spec fn files(&self, key: Seq<u8>) -> bool {
        &&& binary(key)
        &&& self.levels() * self.spec_key_group() <= key.len()
        &&& key.len() <= (self.levels() + 1) * self.spec_key_group()
    }

    /// Whether the trie files its keys in order: every key that it files can
    /// be looked up and has a place within the reach of the machine, and two
    /// such keys of one length have two places.
    pub open spec fn orderly(&self) -> bool {
        &&& forall|key: Seq<u8>| self.files(key) ==> #[trigger] self.accepts(key)
        &&& forall|key: Seq<u8>| self.files(key) ==> 0 <= #[trigger] self.index_of(key) < usize::MAX
        &&& forall|k1: Seq<u8>, k2: Seq<u8>|
            self.files(k1) && self.files(k2) && k1.len() == k2.len() && #[trigger] self.index_of(k1)
                == #[trigger] self.index_of(k2) ==> k1 == k2
    }

    /// A trie for keys of `key_length` digits that are read in groups of
    /// `key_group`: it has every node that has children, and no value. Where a
    /// node has a child for every number that a group of binary digits can
    /// write, the trie files its keys in order.
    pub fn new(key_length: usize, key_group: usize) -> (trie: Self)
        requires
            key_group >= 1,
            key_length >= key_group,
            level_end(key_length as nat, key_length / key_group - 1) <= usize::MAX,
        ensures
            trie.wf(),
            trie.spec_key_length() == key_length,
            trie.spec_key_group() == key_group,
            trie@ == Map::<int, T>::empty(),
            two_to(key_group as nat) <= key_length ==> trie.orderly(),
    {
        let mut memory: Vec<Option<SubTrie<T>>>;
        proof {
            assert(key_length / key_group >= 1) by (nonlinear_arith)
                requires
                    key_length >= key_group,
                    key_group >= 1,
            ;
        }
        let levels: usize = key_length / key_group - 1;
        let mut nodes_length: usize = 0;
        let mut multitude: usize = key_length;
        let mut j: usize = 0;
        proof {
            assert(level_end(key_length as nat, 0) == key_length) by {
                assert(level_end(key_length as nat, -1) == 0);
                assert(key_length * (0 + 1) == key_length) by (nonlinear_arith);
            }
            lemma_level_end_mono(key_length as nat, 0, levels as int);
        }
        while j < levels
            invariant
                j <= levels,
                key_length >= 1,
                nodes_length == level_end(key_length as nat, j - 1),
                multitude == level_end(key_length as nat, j as int) - nodes_length,
                level_end(key_length as nat, levels as int) <= usize::MAX,
            decreases levels - j,
        {
            proof {
                let below = level_end(key_length as nat, j - 1);
                let here = level_end(key_length as nat, j as int);
                lemma_level_end_mono(key_length as nat, j + 1, levels as int);
                lemma_level_end_grows(key_length as nat, j + 1);
                assert(key_length * (here + 1) == here + (here - below) * key_length)
                    by (nonlinear_arith)
                    requires
                        here == key_length * (below + 1),
                ;
            }
            nodes_length += multitude;
            multitude *= key_length;
            j += 1;
        }
        memory = Vec::with_capacity(nodes_length);
        let mut i: usize = 0;
        while i < nodes_length
            invariant
                i <= nodes_length,
                key_length >= 1,
                nodes_length == level_end(key_length as nat, levels - 1),
                level_end(key_length as nat, levels as int) <= usize::MAX,
                memory@.len() == i,
                forall|k: int|
                    0 <= k < i ==> (#[trigger] memory@[k]) is Some && memory@[k]->0.data is None
                        && memory@[k]->0.children_offset == Some(((k + 1) * key_length) as usize)
                        && (k + 1) * key_length <= usize::MAX,
            decreases nodes_length - i,
        {
            proof {
                let below = level_end(key_length as nat, levels - 1);
                assert((i + 1) * key_length <= key_length * (below + 1)) by (nonlinear_arith)
                    requires
                        i + 1 <= below,
                        key_length >= 1,
                ;
            }
            memory.push(
                Some(
                    SubTrie {
                        data: None,
                        depth: get_depth(key_length, i),
                        children_offset: Some((i + 1) * key_length),
                    },
                ),
            );
            i += 1;
        }
        let trie = ContiguousTrie { memory, key_length, key_group };
        proof {
            assert forall|k: int|
                0 <= k < trie.memory@.len() && (#[trigger] trie.memory@[k]) is Some implies {
                let node = trie.memory@[k]->0;
                &&& node.children_offset is Some ==> node.children_offset->0 > k && node.data is None
                &&& node.children_offset is None ==> node.data is Some
            } by {
                assert((k + 1) * key_length >= k + 1) by (nonlinear_arith)
                    requires
                        k >= 0,
                        key_length >= 1,
                ;
            }
            assert(trie@ =~= Map::<int, T>::empty());
            if two_to(key_group as nat) <= key_length {
                let mem = trie.memory@;
                let kl = key_length as nat;
                let kg = key_group as nat;
                let n = levels as int;
                assert(pristine(mem, kl, n));
                assert forall|key: Seq<u8>| trie.files(key) implies #[trigger] trie.accepts(key) by {
                    lemma_first_group(key, kl, kg);
                    lemma_walk_pristine(mem, kl, kg, n, key, group_value(group_of(key, kg)), 0, 0);
                }
                assert forall|key: Seq<u8>| trie.files(key) implies 0 <= #[trigger] trie.index_of(key)
                    < usize::MAX by {
                    lemma_first_group(key, kl, kg);
                    lemma_walk_pristine(mem, kl, kg, n, key, group_value(group_of(key, kg)), 0, 0);
                }
                assert forall|k1: Seq<u8>, k2: Seq<u8>|
                    trie.files(k1) && trie.files(k2) && k1.len() == k2.len() && #[trigger] trie.index_of(
                        k1,
                    ) == #[trigger] trie.index_of(k2) implies k1 == k2 by {
                    lemma_keys_apart(mem, kl, kg, n, k1, k2);
                }
            }
        }
        trie
    }

    /// The index that the first group of `key` writes.
    pub fn compute_index(&self, key: &[u8]) -> (id: usize)
        requires
            readable(key@, self.spec_key_group()),
        ensures
            id == group_value(group_of(key@, self.spec_key_group())),
    {
        read_group(key, self.key_group)
    }

    /// Whether `key` can be looked up: its walk through the array can be made.
    pub fn admits(&self, key: &[u8]) -> (b: bool)
        requires
            self.wf(),
        ensures
            b == self.accepts(key@),
    {
        if !can_read(key, self.key_group) {
            return false;
        }
        let mut current_index = self.compute_index(key);
        let mut key_start: usize = 0;
        while self.memory.len() > current_index && self.memory[current_index].is_some()
            invariant
                self.wf(),
                key_start <= key@.len(),
                self.accepts(key@) == walkable(
                    self.memory@,
                    self.key_group as nat,
                    key@,
                    current_index as int,
                    key_start as int,
                ),
            decreases ahead(self.memory@, current_index as int),
        {
            let ghost start = key_start as int;
            let b: usize = match &self.memory[current_index] {
                Some(a) => match a.children_offset {
                    Some(b) => b,
                    None => {
                        return true;
                    },
                },
                None => {
                    return true;
                },
            };
            proof {
                assert(self.memory@[current_index as int] is Some);
                assert(goes_on(self.memory@, current_index as int));
            }
            if self.key_group > key.len() - key_start {
                return false;
            }
            key_start += self.key_group;
            let rest = vstd::slice::slice_subrange(key, key_start, key.len());
            proof {
                assert(rest@ =~= key@.skip(key_start as int));
            }
            if !can_read(rest, self.key_group) {
                return false;
            }
            let step = self.compute_index(rest);
            if step > usize::MAX - b {
                return false;
            }
            proof {
                lemma_step_ahead(self.memory@, self.key_group as nat, key@, current_index as int, start);
            }
            current_index = b + step;
        }
        true
    }

    /// The place of the array where the walk of `key` ends.
    pub fn key2index(&self, key: &[u8]) -> (index: usize)
        requires
            self.wf(),
            self.accepts(key@),
        ensures
            index == self.index_of(key@),
    {
        let total = key.len();
        let mut current_index = self.compute_index(key);
        let mut key_start: usize = 0;
        while self.memory.len() > current_index && self.memory[current_index].is_some()
            invariant
                self.wf(),
                total == key@.len(),
                key_start <= key@.len(),
                walkable(self.memory@, self.key_group as nat, key@, current_index as int, key_start as int),
                walk(self.memory@, self.key_group as nat, key@, current_index as int, key_start as int)
                    == self.index_of(key@),
            decreases ahead(self.memory@, current_index as int),
        {
            let b: usize = match &self.memory[current_index] {
                Some(a) => match a.children_offset {
                    Some(b) => b,
                    None => {
                        return current_index;
                    },
                },
                None => {
                    return current_index;
                },
            };
            proof {
                assert(self.memory@[current_index as int] is Some);
                assert(goes_on(self.memory@, current_index as int));
                assert(key_start + self.key_group <= key@.len());
            }
            key_start += self.key_group;
            let rest = vstd::slice::slice_subrange(key, key_start, total);
            proof {
                assert(rest@ =~= key@.skip(key_start as int));
            }
            current_index = b + self.compute_index(rest);
        }
        current_index
    }

    /// Stores `value` for `key`. The place where the walk of `key` ends must
    /// be free.
    pub fn insert(&mut self, value: T, key: &[u8])
        requires
            old(self).wf(),
            old(self).accepts(key@),
            old(self).index_of(key@) < usize::MAX,
            !old(self)@.contains_key(old(self).index_of(key@)),
        ensures
            final(self).wf(),
            final(self).spec_key_length() == old(self).spec_key_length(),
            final(self).spec_key_group() == old(self).spec_key_group(),
            final(self)@ == old(self)@.insert(old(self).index_of(key@), value),
            forall|k: Seq<u8>| #[trigger] final(self).index_of(k) == old(self).index_of(k),
            forall|k: Seq<u8>| #[trigger] final(self).accepts(k) == old(self).accepts(k),
            old(self).orderly() ==> final(self).orderly(),
    {
        let current_index = self.key2index(key);
        let ghost before = self.memory@;
        if current_index >= self.memory.len() {
            let push_amount = current_index - self.memory.len() + 1;
            let mut n: usize = 0;
            while n < push_amount
                invariant
                    n <= push_amount,
                    before.len() + push_amount == current_index + 1,
                    self.memory@.len() == before.len() + n,
                    self.key_length == old(self).key_length,
                    self.key_group == old(self).key_group,
                    forall|i: int| 0 <= i < before.len() ==> self.memory@[i] == before[i],
                    forall|i: int| before.len() <= i < self.memory@.len() ==> self.memory@[i] is None,
                decreases push_amount - n,
            {
                self.memory.push(None);
                n += 1;
            }
        }
        let ghost padded = self.memory@;
        self.memory[current_index] = Some(
            SubTrie {
                data: Some(value),
                depth: get_depth(self.key_length, current_index),
                children_offset: None,
            },
        );
        proof {
            let group = self.key_group as nat;
            let after = self.memory@;
            let at = current_index as int;
            lemma_walk_end(before, group, key@, group_value(group_of(key@, group)), 0);
            assert(!goes_on(before, at));
            assert(!goes_on(after, at));
            assert forall|cur: int| cur != at implies #[trigger] goes_on(after, cur) == goes_on(
                before,
                cur,
            ) by {}
            assert forall|k: Seq<u8>| #[trigger] final(self).index_of(k) == old(self).index_of(k) by {
                lemma_walk_kept(before, after, group, k, group_value(group_of(k, group)), 0);
            }
            assert forall|k: Seq<u8>| #[trigger] final(self).accepts(k) == old(self).accepts(k) by {
                lemma_walk_kept(before, after, group, k, group_value(group_of(k, group)), 0);
            }
            assert forall|i: int| 0 <= i < after.len() && i != at implies #[trigger] after[i] == (if i
                < before.len() {
                before[i]
            } else {
                None
            }) by {}
            assert(self@ =~= old(self)@.insert(at, value));
            assert(final(self).wf());
            if old(self).orderly() {
                assert forall|k: Seq<u8>| final(self).files(k) implies #[trigger] final(self).accepts(
                    k,
                ) by {
                    assert(old(self).files(k));
                    assert(final(self).accepts(k) == old(self).accepts(k));
                }
                assert forall|k: Seq<u8>|
                    final(self).files(k) implies 0 <= #[trigger] final(self).index_of(k)
                    < usize::MAX by {
                    assert(old(self).files(k));
                    assert(final(self).index_of(k) == old(self).index_of(k));
                }
                assert forall|k1: Seq<u8>, k2: Seq<u8>|
                    final(self).files(k1) && final(self).files(k2) && k1.len() == k2.len()
                        && #[trigger] final(self).index_of(k1) == #[trigger] final(self).index_of(
                        k2,
                    ) implies k1 == k2 by {
                    assert(old(self).files(k1) && old(self).files(k2));
                    assert(final(self).index_of(k1) == old(self).index_of(k1));
                    assert(final(self).index_of(k2) == old(self).index_of(k2));
                }
            }
        }
    }

    /// Whether `key` has a value.
    pub fn contain(&self, key: &[u8]) -> (b: bool)
        requires
            self.wf(),
            self.accepts(key@),
        ensures
            b == self@.contains_key(self.index_of(key@)),
    {
        let current_index = self.key2index(key);
        if self.memory.len() <= current_index {
            return false;
        }
        proof {
            lemma_walk_end(
                self.memory@,
                self.key_group as nat,
                key@,
                group_value(group_of(key@, self.key_group as nat)),
                0,
            );
        }
        match &self.memory[current_index] {
            Some(_) => true,
            None => false,
        }
    }

    /// The value of `key`, if it has one.
    pub fn get(&self, key: &[u8]) -> (value: Option<T>)
        requires
            self.wf(),
            self.accepts(key@),
        ensures
            value == if self@.contains_key(self.index_of(key@)) {
                Some(self@[self.index_of(key@)])
            } else {
                None
            },
    {
        let current_index = self.key2index(key);
        if self.memory.len() <= current_index {
            return None;
        }
        match &self.memory[current_index] {
            Some(a) => a.data,
            None => None,
        }
    }
}

/// The levels never shrink.
pub proof fn lemma_level_end_mono(key_length: nat, lower: int, upper: int)
    requires
        key_length >= 1,
        -1 <= lower <= upper,
    ensures
        level_end(key_length, lower) <= level_end(key_length, upper),
    decreases upper - lower,
{
    if lower < upper {
        lemma_level_end_mono(key_length, lower + 1, upper);
        lemma_level_end_grows(key_length, lower + 1);
    }
}

/// A walk that can be made does not end at a node with children.
proof fn lemma_walk_end<T: TrieData>(
    memory: Seq<Option<SubTrie<T>>>,
    group: nat,
    key: Seq<u8>,
    cur: int,
    start: int,
)
    requires
        walkable(memory, group, key, cur, start),
    ensures
        !goes_on(memory, walk(memory, group, key, cur, start)),
    decreases ahead(memory, cur),
{
    if goes_on(memory, cur) {
        lemma_walk_end(memory, group, key, next_of(memory, group, key, cur, start), start + group);
    }
}

/// Walks stay as they are where the nodes with children stay as they are.
proof fn lemma_walk_kept<T: TrieData>(
    before: Seq<Option<SubTrie<T>>>,
    after: Seq<Option<SubTrie<T>>>,
    group: nat,
    key: Seq<u8>,
    cur: int,
    start: int,
)
    requires
        before.len() <= after.len(),
        forall|c: int| #[trigger] goes_on(after, c) == goes_on(before, c),
        forall|c: int| goes_on(before, c) ==> #[trigger] after[c] == before[c],
    ensures
        walk(after, group, key, cur, start) == walk(before, group, key, cur, start),
        walkable(after, group, key, cur, start) == walkable(before, group, key, cur, start),
    decreases ahead(before, cur),
{
    assert(goes_on(after, cur) == goes_on(before, cur));
    if goes_on(before, cur) {
        assert(after[cur] == before[cur]);
        let next = next_of(before, group, key, cur, start);
        assert(next_of(after, group, key, cur, start) == next);
        if next > cur {
            lemma_walk_kept(before, after, group, key, next, start + group);
        }
    }
}

/// Whether every byte is a binary digit: `b'0'` or `b'1'`.
pub open spec fn binary(key: Seq<u8>) -> bool {
    forall|i: int| 0 <= i < key.len() ==> #[trigger] key[i] == 48 || key[i] == 49
}

/// Two to the power of `n`: the number of numbers that `n` binary digits write.
pub open spec fn two_to(n: nat) -> nat
    decreases n,
{
    if n == 0 {
        1
    } else {
        2 * two_to((n - 1) as nat)
    }
}

/// More digits write more numbers.
pub proof fn lemma_two_to_grows(a: nat, b: nat)
    requires
        a <= b,
    ensures
        1 <= two_to(a) <= two_to(b),
    decreases b,
{
    if b == 0 {
    } else if a == b {
        lemma_two_to_grows((a - 1) as nat, (a - 1) as nat);
    } else {
        lemma_two_to_grows(a, (b - 1) as nat);
    }
}

/// Binary digits write a number below two to the power of their count.
pub proof fn lemma_binary_value(digits: Seq<u8>)
    requires
        binary(digits),
    ensures
        all_digits(digits),
        0 <= group_value(digits) < two_to(digits.len()),
    decreases digits.len(),
{
    if digits.len() > 0 {
        assert(binary(digits.drop_last()));
        lemma_binary_value(digits.drop_last());
        assert(digits.last() == 48 || digits.last() == 49);
    }
}

/// Binary digits of one count that write one number are the same digits.
pub proof fn lemma_binary_same(d1: Seq<u8>, d2: Seq<u8>)
    requires
        binary(d1),
        binary(d2),
        d1.len() == d2.len(),
        group_value(d1) == group_value(d2),
    ensures
        d1 == d2,
    decreases d1.len(),
{
    if d1.len() > 0 {
        assert(binary(d1.drop_last()));
        assert(binary(d2.drop_last()));
        assert(d1.last() == 48 || d1.last() == 49);
        assert(d2.last() == 48 || d2.last() == 49);
        lemma_binary_same(d1.drop_last(), d2.drop_last());
        assert(d1 =~= d1.drop_last().push(d1.last()));
        assert(d2 =~= d2.drop_last().push(d2.last()));
    } else {
        assert(d1 =~= d2);
    }
}

/// The group of a key of binary digits that begins at `start` is made of
/// binary digits and writes a number below `key_length`.
proof fn lemma_group_at(key: Seq<u8>, start: int, kl: nat, kg: nat)
    requires
        binary(key),
        0 <= start <= key.len(),
        two_to(kg) <= kl,
    ensures
        binary(group_of(key.skip(start), kg)),
        readable(key.skip(start), kg) || group_value(group_of(key.skip(start), kg)) > usize::MAX,
        all_digits(group_of(key.skip(start), kg)),
        0 <= group_value(group_of(key.skip(start), kg)) < kl,
        group_of(key.skip(start), kg).len() <= kg,
{
    let g = group_of(key.skip(start), kg);
    assert forall|i: int| 0 <= i < g.len() implies #[trigger] g[i] == 48 || g[i] == 49 by {
        assert(g[i] == key[start + i]);
    }
    lemma_binary_value(g);
    lemma_two_to_grows(g.len(), kg);
}

/// The first group of a key of binary digits writes a place in the first level.
proof fn lemma_first_group(key: Seq<u8>, kl: nat, kg: nat)
    requires
        binary(key),
        two_to(kg) <= kl,
    ensures
        binary(group_of(key, kg)),
        all_digits(group_of(key, kg)),
        0 <= group_value(group_of(key, kg)) < kl,
        level_end(kl, -1) == 0,
        level_end(kl, 0) == kl,
{
    assert(key.skip(0) =~= key);
    lemma_group_at(key, 0, kl, kg);
    assert(level_end(kl, -1) == 0);
    assert(kl * (0 + 1) == kl) by (nonlinear_arith);
}

/// Whether the array is as a new trie has it: it holds the nodes of the first
/// `n` levels and no other, each with its children's block behind it.
closed spec fn pristine<T: TrieData>(memory: Seq<Option<SubTrie<T>>>, kl: nat, n: int) -> bool {
    &&& memory.len() == level_end(kl, n - 1)
    &&& forall|i: int|
        0 <= i < memory.len() ==> (#[trigger] memory[i]) is Some && memory[i]->0.children_offset
            == Some(((i + 1) * kl) as usize) && (i + 1) * kl <= usize::MAX
}

/// The child of a node of a level lies in the next level.
proof fn lemma_child_level(kl: nat, j: int, cur: int, g: int)
    requires
        kl >= 1,
        j >= 0,
        level_end(kl, j - 1) <= cur < level_end(kl, j),
        0 <= g < kl,
    ensures
        level_end(kl, j) <= (cur + 1) * kl + g < level_end(kl, j + 1),
        (cur + 1) * kl > cur,
{
    let below = level_end(kl, j - 1) as int;
    let here = level_end(kl, j) as int;
    assert(here == kl * (below + 1));
    assert(level_end(kl, j + 1) == kl * (here + 1));
    assert((cur + 1) * kl >= (below + 1) * kl && (cur + 1) * kl <= here * kl && (below + 1) * kl == kl
        * (below + 1) && here * kl + kl == kl * (here + 1) && (cur + 1) * kl > cur)
        by (nonlinear_arith)
        requires
            below <= cur < here,
            kl >= 1,
            cur >= 0,
            below >= 0,
    ;
}

/// In a new trie the walk of a key of binary digits can be made from every
/// level, and ends in the level behind the last.
proof fn lemma_walk_pristine<T: TrieData>(
    memory: Seq<Option<SubTrie<T>>>,
    kl: nat,
    kg: nat,
    n: int,
    key: Seq<u8>,
    cur: int,
    j: int,
    start: int,
)
    requires
        pristine(memory, kl, n),
        kl >= 1,
        kg >= 1,
        two_to(kg) <= kl,
        level_end(kl, n) <= usize::MAX,
        binary(key),
        n * kg <= key.len(),
        0 <= j <= n,
        start == j * kg,
        level_end(kl, j - 1) <= cur < level_end(kl, j),
    ensures
        walkable(memory, kg, key, cur, start),
        level_end(kl, n - 1) <= walk(memory, kg, key, cur, start) < level_end(kl, n),
        readable(key.skip(start), kg),
    decreases n - j,
{
    assert(start <= key.len()) by (nonlinear_arith)
        requires
            start == j * kg,
            j <= n,
            n * kg <= key.len(),
            kg >= 1,
            j >= 0,
    ;
    lemma_group_at(key, start, kl, kg);
    lemma_level_end_mono(kl, 0, n);
    lemma_first_group(key, kl, kg);
    if j < n {
        lemma_level_end_mono(kl, j, n - 1);
        lemma_level_end_mono(kl, j + 1, n);
        assert(start + kg == (j + 1) * kg && start + kg <= n * kg) by (nonlinear_arith)
            requires
                start == j * kg,
                j + 1 <= n,
                kg >= 1,
        ;
        lemma_group_at(key, start + kg, kl, kg);
        let g = group_value(group_of(key.skip(start + kg), kg));
        lemma_child_level(kl, j, cur, g);
        assert(goes_on(memory, cur));
        assert(next_of(memory, kg, key, cur, start) == (cur + 1) * kl + g);
        lemma_walk_pristine(memory, kl, kg, n, key, (cur + 1) * kl + g, j + 1, start + kg);
    } else {
        assert(!goes_on(memory, cur));
    }
}

/// In a new trie two walks that end at one place have come through one node in
/// every level, and the keys are the same from there on.
proof fn lemma_walks_apart<T: TrieData>(
    memory: Seq<Option<SubTrie<T>>>,
    kl: nat,
    kg: nat,
    n: int,
    k1: Seq<u8>,
    k2: Seq<u8>,
    c1: int,
    c2: int,
    j: int,
    start: int,
)
    requires
        pristine(memory, kl, n),
        kl >= 1,
        kg >= 1,
        two_to(kg) <= kl,
        level_end(kl, n) <= usize::MAX,
        binary(k1),
        binary(k2),
        k1.len() == k2.len(),
        n * kg <= k1.len() <= (n + 1) * kg,
        0 <= j <= n,
        start == j * kg,
        level_end(kl, j - 1) <= c1 < level_end(kl, j),
        level_end(kl, j - 1) <= c2 < level_end(kl, j),
        walk(memory, kg, k1, c1, start) == walk(memory, kg, k2, c2, start),
    ensures
        c1 == c2,
        j < n ==> k1.skip(start + kg) == k2.skip(start + kg),
    decreases n - j,
{
    lemma_level_end_mono(kl, 0, n);
    if j < n {
        lemma_level_end_mono(kl, j, n - 1);
        assert(start + kg == (j + 1) * kg && start + kg <= n * kg && start + kg + kg == (j + 2) * kg && (n
            + 1) * kg == n * kg + kg) by (nonlinear_arith)
            requires
                start == j * kg,
                j + 1 <= n,
                kg >= 1,
        ;
        let a = start + kg;
        lemma_group_at(k1, a, kl, kg);
        lemma_group_at(k2, a, kl, kg);
        let d1 = group_of(k1.skip(a), kg);
        let d2 = group_of(k2.skip(a), kg);
        let g1 = group_value(d1);
        let g2 = group_value(d2);
        lemma_child_level(kl, j, c1, g1);
        lemma_child_level(kl, j, c2, g2);
        assert(goes_on(memory, c1));
        assert(goes_on(memory, c2));
        assert(next_of(memory, kg, k1, c1, start) == (c1 + 1) * kl + g1);
        assert(next_of(memory, kg, k2, c2, start) == (c2 + 1) * kl + g2);
        lemma_walks_apart(memory, kl, kg, n, k1, k2, (c1 + 1) * kl + g1, (c2 + 1) * kl + g2, j + 1, a);
        assert(c1 == c2 && g1 == g2) by (nonlinear_arith)
            requires
                (c1 + 1) * kl + g1 == (c2 + 1) * kl + g2,
                0 <= g1 < kl,
                0 <= g2 < kl,
        ;
        lemma_binary_same(d1, d2);
        assert(k1.skip(a) =~= k2.skip(a)) by {
            if j + 1 < n {
                assert(k1.skip(a + kg) == k2.skip(a + kg));
                assert forall|t: int| 0 <= t < k1.skip(a).len() implies k1.skip(a)[t] == k2.skip(a)[t] by {
                    if t < kg {
                        assert(d1[t] == k1.skip(a)[t]);
                        assert(d2[t] == k2.skip(a)[t]);
                    } else {
                        assert(k1.skip(a + kg)[t - kg] == k1.skip(a)[t]);
                        assert(k2.skip(a + kg)[t - kg] == k2.skip(a)[t]);
                    }
                }
            } else {
                assert(d1 == k1.skip(a));
                assert(d2 == k2.skip(a));
            }
        }
    } else {
        assert(!goes_on(memory, c1));
        assert(!goes_on(memory, c2));
    }
}

/// In a new trie two keys of binary digits and of one length that come to one
/// place are one key.
proof fn lemma_keys_apart<T: TrieData>(
    memory: Seq<Option<SubTrie<T>>>,
    kl: nat,
    kg: nat,
    n: int,
    k1: Seq<u8>,
    k2: Seq<u8>,
)
    requires
        pristine(memory, kl, n),
        kl >= 1,
        kg >= 1,
        n >= 0,
        two_to(kg) <= kl,
        level_end(kl, n) <= usize::MAX,
        binary(k1),
        binary(k2),
        k1.len() == k2.len(),
        n * kg <= k1.len() <= (n + 1) * kg,
        walk(memory, kg, k1, group_value(group_of(k1, kg)), 0) == walk(
            memory,
            kg,
            k2,
            group_value(group_of(k2, kg)),
            0,
        ),
    ensures
        k1 == k2,
{
    lemma_first_group(k1, kl, kg);
    lemma_first_group(k2, kl, kg);
    let d1 = group_of(k1, kg);
    let d2 = group_of(k2, kg);
    lemma_walks_apart(memory, kl, kg, n, k1, k2, group_value(d1), group_value(d2), 0, 0);
    lemma_binary_same(d1, d2);
    assert(n * kg >= kg || n == 0) by (nonlinear_arith)
        requires
            n >= 0,
            kg >= 1,
    ;
    assert((0 + 1) * kg == kg) by (nonlinear_arith);
    assert(k1 =~= k2) by {
        if n > 0 {
            assert(k1.skip(kg as int) == k2.skip(kg as int));
            assert forall|t: int| 0 <= t < k1.len() implies k1[t] == k2[t] by {
                if t < kg {
                    assert(d1[t] == k1[t]);
                    assert(d2[t] == k2[t]);
                } else {
                    assert(k1.skip(kg as int)[t - kg] == k1[t]);
                    assert(k2.skip(kg as int)[t - kg] == k2[t]);
                }
            }
        } else {
            assert(d1 == k1);
            assert(d2 == k2);
        }
    }
}

} // verus!
