//! [`Huffman`]: a huffman coder over bytes or characters.
//!
//! A tree is built from sample data so that more common symbols get shorter paths; each symbol
//! is then encoded as the path from the root to its leaf (`true` for left, `false` for right),
//! and decoded by walking the tree bit by bit.
use vstd::prelude::*;
use vstd::multiset::Multiset;
use crate::types::integer::{Integer, IntegerSerError, SignedState, decoding, encoding};
use crate::utilities::bits::Bits;
use crate::utilities::cursor::Cursor;
use crate::types::binary::lz::append;
use crate::types::integer::lemma_encoding_roundtrip;

verus! {

/// A symbol that a [`Huffman`] coder can encode: it has a distinct `u32` code, from which it
/// can be recovered.
pub trait HuffmanSymbol: Sized + Copy {
    /// The code of a symbol.
    spec fn spec_code(self) -> u32;

    /// The symbol with a code, if there is one.
    spec fn spec_from_code(c: u32) -> Option<Self>;

    /// The code of this symbol.
    fn code(&self) -> (c: u32)
        ensures
            c == self.spec_code(),
    ;

    /// The symbol with code `c`, if there is one.
    fn from_code(c: u32) -> (r: Option<Self>)
        ensures
            r == Self::spec_from_code(c),
    ;

    /// A code gives back its symbol, and is never `u32::MAX`.
    proof fn lemma_code(s: Self)
        ensures
            Self::spec_from_code(s.spec_code()) == Some(s),
            s.spec_code() < u32::MAX,
    ;

    /// The symbol with a code has that code.
    proof fn lemma_from_code(c: u32)
        ensures
            Self::spec_from_code(c) matches Some(t) ==> t.spec_code() == c,
    ;
}

impl HuffmanSymbol for u8 {
    open spec fn spec_code(self) -> u32 {
        self as u32
    }

    open spec fn spec_from_code(c: u32) -> Option<u8> {
        if c <= 255 {
            Some(c as u8)
        } else {
            None
        }
    }

    fn code(&self) -> (c: u32) {
        *self as u32
    }

    fn from_code(c: u32) -> (r: Option<u8>) {
        if c <= 255 {
            Some(c as u8)
        } else {
            None
        }
    }

    proof fn lemma_code(s: u8) {
    }

    proof fn lemma_from_code(c: u32) {
    }
}

/// Whether `c` is a Unicode scalar value, the codes of `char`s.
pub open spec fn is_scalar_value(c: u32) -> bool {
    c <= 0xD7FF || (0xE000 <= c && c <= 0x10FFFF)
}

/// Calls `char::from_u32`, which the standard library documents as returning the `char` with
/// that code when the code is a Unicode scalar value, and `None` otherwise.
#[verifier::external_body]
pub(crate) fn char_from_u32(c: u32) -> (r: Option<char>)
    ensures
        r == (if is_scalar_value(c) {
            Some(c as char)
        } else {
            None::<char>
        }),
{
    char::from_u32(c)
}

impl HuffmanSymbol for char {
    open spec fn spec_code(self) -> u32 {
        self as u32
    }

    open spec fn spec_from_code(c: u32) -> Option<char> {
        if is_scalar_value(c) {
            Some(c as char)
        } else {
            None
        }
    }

    fn code(&self) -> (c: u32) {
        *self as u32
    }

    fn from_code(c: u32) -> (r: Option<char>) {
        char_from_u32(c)
    }

    proof fn lemma_code(s: char) {
        vstd::utf8::char_is_scalar(s);
        vstd::utf8::char_u32_cast(s, s as u32);
    }

    proof fn lemma_from_code(c: u32) {
    }
}

/// A node of a huffman tree.
#[derive(Debug)]
pub enum Node<T> {
    /// A symbol.
    Leaf(T),
    /// Two subtrees: paths into `left` go on with `true`, into `right` with `false`.
    Branch { left: Box<Node<T>>, right: Box<Node<T>> },
}

/// An error when deserialising a huffman tree.
#[derive(Debug)]
pub enum HuffmanSerError {
    /// A leaf held a code with no symbol.
    InvalidCharacter(u32),
    /// A leaf's code could not be read.
    Integer(IntegerSerError),
    /// The bytes ran out.
    NotEnoughBytes,
    /// A node did not have the expected form.
    InvalidNodeFormat { ex: char, found: u8 },
}

impl<T: HuffmanSymbol> Node<T> {
    /// The number of edges on the longest path from this node to a leaf.
    pub open spec fn depth(self) -> nat
        decreases self,
    {
        match self {
            Node::Leaf(_) => 0,
            Node::Branch { left, right } => 1 + if left.depth() >= right.depth() {
                left.depth()
            } else {
                right.depth()
            },
        }
    }

    /// The codes of the symbols at the leaves.
    pub open spec fn leaf_codes(self) -> Set<u32>
        decreases self,
    {
        match self {
            Node::Leaf(t) => set![t.spec_code()],
            Node::Branch { left, right } => left.leaf_codes() + right.leaf_codes(),
        }
    }

    /// The path to the leaf with code `c`; where several leaves have it, the one furthest
    /// right.
    pub open spec fn path_to(self, c: u32) -> Option<Seq<bool>>
        decreases self,
    {
        match self {
            Node::Leaf(t) => if t.spec_code() == c {
                Some(Seq::empty())
            } else {
                None
            },
            Node::Branch { left, right } => match right.path_to(c) {
                Some(p) => Some(seq![false] + p),
                None => match left.path_to(c) {
                    Some(p) => Some(seq![true] + p),
                    None => None,
                },
            },
        }
    }

    /// The path to the leftmost leaf holding `target`, left being `false` here.
    pub open spec fn find_path(self, target: T) -> Option<Seq<bool>>
        decreases self,
    {
        match self {
            Node::Leaf(t) => if t == target {
                Some(Seq::empty())
            } else {
                None
            },
            Node::Branch { left, right } => match left.find_path(target) {
                Some(p) => Some(seq![false] + p),
                None => match right.find_path(target) {
                    Some(p) => Some(seq![true] + p),
                    None => None,
                },
            },
        }
    }

    /// A leaf's code has a path, and only a leaf's code does; no path is longer than the depth.
    pub proof fn lemma_path_to(self, c: u32)
        ensures
            self.path_to(c) is Some <==> self.leaf_codes().contains(c),
            self.path_to(c) matches Some(p) ==> p.len() <= self.depth(),
        decreases self,
    {
        match self {
            Node::Leaf(_) => {},
            Node::Branch { left, right } => {
                left.lemma_path_to(c);
                right.lemma_path_to(c);
            },
        }
    }

    /// The number of edges on the longest path from this node to a leaf: see
    /// [`Node::depth`].
    pub fn tree_depth(&self) -> (d: usize)
        requires
            self.depth() <= usize::MAX,
        ensures
            d == self.depth(),
        decreases self,
    {
        match self {
            Node::Leaf(_) => 0,
            Node::Branch { left, right } => {
                let l = left.tree_depth();
                let r = right.tree_depth();
                if l >= r {
                    l + 1
                } else {
                    r + 1
                }
            },
        }
    }

    /// Serialises the tree: see [`node_bytes`].
    pub fn ser(&self) -> (r: Vec<u8>)
        ensures
            r@ == node_bytes(*self),
        decreases self,
    {
        match self {
            Node::Leaf(ch) => {
                proof {
                    T::lemma_code(*ch);
                }
                Integer::u32(ch.code() + 1).ser().1
            },
            Node::Branch { left, right } => {
                let mut res: Vec<u8> = Vec::new();
                res.push(0);
                let l = left.ser();
                append(&mut res, &l);
                let r = right.ser();
                append(&mut res, &r);
                proof {
                    assert(res@ =~= node_bytes(*self));
                }
                res
            },
        }
    }

    /// Deserialises a tree written by [`Node::ser`]: see [`parse_node`].
    pub fn deser(cursor: &mut Cursor<u8>) -> (r: Result<Node<T>, HuffmanSerError>)
        requires
            old(cursor).wf(),
        ensures
            final(cursor).wf(),
            final(cursor).items() == old(cursor).items(),
            match parse_node::<T>(old(cursor).rest()) {
                Ok((n, k)) => r == Ok::<Node<T>, HuffmanSerError>(n) && final(cursor).head() == old(cursor).head() + k,
                Err(e) => r == Err::<Node<T>, HuffmanSerError>(e),
            },
        decreases old(cursor).rest().len(),
    {
        let ghost s = old(cursor).rest();
        let ghost head0 = old(cursor).head();
        let ch = match cursor.next() {
            Some(c) => *c,
            None => return Err(HuffmanSerError::NotEnoughBytes),
        };
        if ch == 0 {
            proof {
                assert(cursor.rest() =~= s.drop_first());
            }
            let left = match Self::deser(cursor) {
                Ok(n) => n,
                Err(e) => return Err(e),
            };
            let ghost n1 = (cursor.head() - head0 - 1) as nat;
            proof {
                assert(cursor.rest() =~= s.subrange((1 + n1) as int, s.len() as int));
            }
            let right = match Self::deser(cursor) {
                Ok(n) => n,
                Err(e) => return Err(e),
            };
            Ok(Node::Branch { left: Box::new(left), right: Box::new(right) })
        } else {
            cursor.move_backwards(1);
            proof {
                assert(cursor.rest() =~= s);
            }
            let code = match Integer::deser(SignedState::Positive, cursor) {
                Ok(i) => match i.try_into_u32() {
                    Ok(v) => v,
                    Err(e) => return Err(HuffmanSerError::Integer(e)),
                },
                Err(e) => return Err(HuffmanSerError::Integer(e)),
            };
            if code == 0 {
                return Err(HuffmanSerError::InvalidCharacter(u32::MAX));
            }
            match T::from_code(code - 1) {
                Some(t) => Ok(Node::Leaf(t)),
                None => Err(HuffmanSerError::InvalidCharacter(code - 1)),
            }
        }
    }

    /// Finds the path to `target` (left being `false`), extending `so_far`.
    pub fn find(&self, target: &T) -> (r: Option<Bits>)
        requires
            self.depth() <= usize::MAX,
        ensures
            r matches Some(b) ==> b.wf(),
            r matches Some(b) ==> Some(b@) == self.find_path(*target),
            r is None ==> self.find_path(*target) is None,
    {
        self.find_internal(target, Bits::new())
    }

    fn find_internal(&self, target: &T, so_far: Bits) -> (r: Option<Bits>)
        requires
            so_far.wf(),
            so_far@.len() + self.depth() <= usize::MAX,
        ensures
            r matches Some(b) ==> b.wf(),
            r matches Some(b) ==> Some(b@) == prefixed(self.find_path(*target), so_far@),
            r is None ==> self.find_path(*target) is None,
        decreases self,
    {
        match self {
            Node::Leaf(leaf) => {
                if leaf.code() == target.code() {
                    proof {
                        T::lemma_code(*leaf);
                        T::lemma_code(*target);
                        assert(so_far@ + Seq::<bool>::empty() =~= so_far@);
                    }
                    Some(so_far)
                } else {
                    None
                }
            },
            Node::Branch { left, right } => {
                let left_path = so_far.push_into_new(false);
                if let Some(path) = left.find_internal(target, left_path) {
                    proof {
                        let p = left.find_path(*target).unwrap();
                        assert(so_far@.push(false) + p =~= so_far@ + (seq![false] + p));
                    }
                    return Some(path);
                }
                let right_path = so_far.push_into_new(true);
                if let Some(path) = right.find_internal(target, right_path) {
                    proof {
                        let p = right.find_path(*target).unwrap();
                        assert(so_far@.push(true) + p =~= so_far@ + (seq![true] + p));
                    }
                    return Some(path);
                }
                None
            },
        }
    }

    /// The symbol of a leaf; `None` for a branch.
    pub fn leaf_contents(&self) -> (r: Option<&T>)
        ensures
            self is Leaf <==> r is Some,
            r matches Some(t) ==> *self == Node::<T>::Leaf(*t),
    {
        if let Node::Leaf(t) = self {
            Some(t)
        } else {
            None
        }
    }
}

/// The code table of a [`Huffman`] coder: each symbol's code and the bits of its path, held in
/// a `hashbrown::HashMap`.
#[verifier::external_body]
pub struct CodeTable {
    map: hashbrown::HashMap<u32, Bits>,
}

/// `pre` followed by the path, if there is one.
pub open spec fn prefixed(o: Option<Seq<bool>>, pre: Seq<bool>) -> Option<Seq<bool>> {
    match o {
        Some(p) => Some(pre + p),
        None => None,
    }
}

/// A table without entries.
pub open spec fn no_codes() -> Map<u32, Bits> {
    Map::empty()
}

/// The entries of a [`CodeTable`].
pub uninterp spec fn code_table(t: CodeTable) -> Map<u32, Bits>;

impl CodeTable {
    /// Calls `hashbrown::HashMap::new`: an empty map.
    #[verifier::external_body]
    fn new() -> (table: CodeTable)
        ensures
            code_table(table) == no_codes(),
    {
        CodeTable { map: hashbrown::HashMap::new() }
    }

    /// Calls `hashbrown::HashMap::insert`, which maps `k` to `v` and keeps every other entry.
    #[verifier::external_body]
    fn insert(&mut self, k: u32, v: Bits)
        ensures
            code_table(*final(self)) == code_table(*old(self)).insert(k, v),
    {
        self.map.insert(k, v);
    }

    /// Calls `hashbrown::HashMap::get`: the value of `k`, if it has one.
    #[verifier::external_body]
    fn get(&self, k: u32) -> (r: Option<&Bits>)
        ensures
            code_table(*self).contains_key(k) ==> r == Some(&code_table(*self)[k]),
            !code_table(*self).contains_key(k) ==> r is None,
    {
        self.map.get(&k)
    }
}

/// The symbols that walking `bits` through the tree `root` yields, starting at `node`: each
/// bit goes left (`true`) or right (`false`), and reaching a leaf yields its symbol and starts
/// again at the root. Bits that stop short of a leaf yield nothing.
pub open spec fn decode_walk<T: HuffmanSymbol>(root: Node<T>, node: Node<T>, bits: Seq<bool>) -> Seq<T>
    decreases bits.len(),
{
    if bits.len() == 0 {
        Seq::empty()
    } else {
        match node {
            Node::Leaf(_) => Seq::empty(),
            Node::Branch { left, right } => {
                let next = if bits[0] { *left } else { *right };
                match next {
                    Node::Leaf(t) => seq![t] + decode_walk(root, root, bits.drop_first()),
                    Node::Branch { .. } => decode_walk(root, next, bits.drop_first()),
                }
            },
        }
    }
}

/// Whether walking `bits` through the tree `root`, starting at `node` (`at_root` when that is
/// the root itself), ends back at the root: every bit leads to a leaf in the end, with none
/// left over part of the way down a path.
pub open spec fn walk_ends<T: HuffmanSymbol>(root: Node<T>, node: Node<T>, at_root: bool, bits: Seq<bool>) -> bool
    decreases bits.len(),
{
    if bits.len() == 0 {
        at_root
    } else {
        match node {
            Node::Leaf(_) => false,
            Node::Branch { left, right } => {
                let next = if bits[0] { *left } else { *right };
                match next {
                    Node::Leaf(_) => walk_ends(root, root, true, bits.drop_first()),
                    Node::Branch { .. } => walk_ends(root, next, false, bits.drop_first()),
                }
            },
        }
    }
}

/// The bits that encode `s` with the tree `root`: the paths to its symbols one after the
/// other, or `None` if a symbol is not in the tree.
pub open spec fn encode_path<T: HuffmanSymbol>(root: Node<T>, s: Seq<T>) -> Option<Seq<bool>>
    decreases s.len(),
{
    if s.len() == 0 {
        Some(Seq::empty())
    } else {
        match encode_path(root, s.drop_last()) {
            None => None,
            Some(p) => match root.path_to(s.last().spec_code()) {
                Some(q) => Some(p + q),
                None => None,
            },
        }
    }
}

/// How often each symbol code occurs, held in a `hashbrown::HashMap`.
#[verifier::external_body]
pub struct FrequencyTable {
    map: hashbrown::HashMap<u32, usize>,
}

/// The entries of a [`FrequencyTable`].
pub uninterp spec fn frequencies(t: FrequencyTable) -> Map<u32, usize>;

/// A table without entries.
pub open spec fn no_frequencies() -> Map<u32, usize> {
    Map::empty()
}

/// Whether `l` lists the entries of `m`, each once, in some order.
pub open spec fn lists_entries(l: Seq<(u32, usize)>, m: Map<u32, usize>) -> bool {
    &&& l.map_values(|e: (u32, usize)| e.0).no_duplicates()
    &&& forall|i: int| 0 <= i < l.len() ==> m.contains_key(#[trigger] l[i].0) && m[l[i].0] == l[i].1
    &&& forall|k: u32| #[trigger] m.contains_key(k) ==> exists|i: int| 0 <= i < l.len() && l[i].0 == k
}

impl FrequencyTable {
    /// Calls `hashbrown::HashMap::new`: an empty map.
    #[verifier::external_body]
    pub(crate) fn new() -> (table: FrequencyTable)
        ensures
            frequencies(table) == no_frequencies(),
    {
        FrequencyTable { map: hashbrown::HashMap::new() }
    }

    /// Calls `hashbrown::HashMap::insert`, which maps `k` to `v` and keeps every other entry.
    #[verifier::external_body]
    pub(crate) fn insert(&mut self, k: u32, v: usize)
        ensures
            frequencies(*final(self)) == frequencies(*old(self)).insert(k, v),
    {
        self.map.insert(k, v);
    }

    /// Calls `hashbrown::HashMap::get`: the value of `k`, if it has one.
    #[verifier::external_body]
    pub(crate) fn get(&self, k: u32) -> (r: Option<usize>)
        ensures
            frequencies(*self).contains_key(k) ==> r == Some(frequencies(*self)[k]),
            !frequencies(*self).contains_key(k) ==> r is None,
    {
        self.map.get(&k).copied()
    }

    /// Calls `hashbrown::HashMap::iter`: every entry once, in an order that the map does not
    /// fix.
    #[verifier::external_body]
    pub(crate) fn entries(&self) -> (l: Vec<(u32, usize)>)
        ensures
            lists_entries(l@, frequencies(*self)),
    {
        self.map.iter().map(|(k, v)| (*k, *v)).collect()
    }
}

/// A list of weighted items that hands out the lightest one first.
pub struct MinHeap<T> {
    list: Vec<(T, usize)>,
}

impl<T> MinHeap<T> {
    /// The items and their weights, in no particular order.
    pub closed spec fn items(&self) -> Seq<(T, usize)> {
        self.list@
    }

    /// A heap holding `list`, which need not be ordered.
    pub fn new(list: Vec<(T, usize)>) -> (h: Self)
        ensures
            h.items() == list@,
    {
        MinHeap { list }
    }

    /// Adds an item with a weight.
    pub fn push(&mut self, item: T, weight: usize)
        ensures
            final(self).items() == old(self).items().push((item, weight)),
    {
        self.list.push((item, weight));
    }

    /// Removes and returns the first of the lightest items, moving the last item into its
    /// place; `None` when empty.
    pub fn next(&mut self) -> (r: Option<(T, usize)>)
        ensures
            r is None <==> old(self).items().len() == 0,
            r is None ==> final(self).items() == old(self).items(),
            r matches Some(e) ==> exists|i: int|
                0 <= i < old(self).items().len() && e == old(self).items()[i]
                    && final(self).items() == old(self).items().update(i, old(self).items().last()).drop_last()
                    && (forall|j: int| 0 <= j < old(self).items().len() ==> old(self).items()[j].1 >= e.1)
                    && (forall|j: int| 0 <= j < i ==> old(self).items()[j].1 > e.1),
    {
        if self.list.len() == 0 {
            return None;
        }
        let mut index: usize = 0;
        let mut j: usize = 1;
        while j < self.list.len()
            invariant
                self.list@ == old(self).list@,
                1 <= j <= self.list@.len(),
                index < j,
                forall|k: int| 0 <= k < j ==> self.list@[k].1 >= self.list@[index as int].1,
                forall|k: int| 0 <= k < index ==> self.list@[k].1 > self.list@[index as int].1,
            decreases self.list.len() - j,
        {
            if self.list[j].1 < self.list[index].1 {
                index = j;
            }
            j = j + 1;
        }
        let ghost l = self.list@;
        let e = self.list.swap_remove(index);
        proof {
            let i = index as int;
            assert(l == old(self).items());
            assert(0 <= i < l.len() && e == l[i] && self.list@ == l.update(i, l.last()).drop_last()
                && (forall|j: int| 0 <= j < l.len() ==> l[j].1 >= e.1)
                && (forall|j: int| 0 <= j < i ==> l[j].1 > e.1));
            assert(exists|i: int|
                0 <= i < old(self).items().len() && e == old(self).items()[i]
                    && self.items() == old(self).items().update(i, old(self).items().last()).drop_last()
                    && (forall|j: int| 0 <= j < old(self).items().len() ==> old(self).items()[j].1 >= e.1)
                    && (forall|j: int| 0 <= j < i ==> old(self).items()[j].1 > e.1));
        }
        Some(e)
    }
}

/// The codes at the leaves of the trees in a list.
pub open spec fn codes_union<T: HuffmanSymbol>(l: Seq<(Node<T>, usize)>) -> Set<u32> {
    Set::new(|c: u32| exists|j: int| 0 <= j < l.len() && (#[trigger] l[j]).0.leaf_codes().contains(c))
}

/// The codes of the symbols of `s`.
pub open spec fn codes_of<T: HuffmanSymbol>(s: Seq<T>) -> Set<u32> {
    Set::new(|c: u32| exists|j: int| 0 <= j < s.len() && (#[trigger] s[j]).spec_code() == c)
}

proof fn lemma_swap_remove_codes<T: HuffmanSymbol>(l: Seq<(Node<T>, usize)>, i: int)
    requires
        0 <= i < l.len(),
    ensures
        codes_union(l.update(i, l.last()).drop_last()) + l[i].0.leaf_codes() == codes_union(l),
        forall|k: int| 0 <= k < l.len() - 1 ==> exists|j: int| 0 <= j < l.len() && #[trigger] l.update(i, l.last()).drop_last()[k] == l[j],
{
    let l1 = l.update(i, l.last()).drop_last();
    assert forall|k: int| 0 <= k < l.len() - 1 implies exists|j: int| 0 <= j < l.len() && #[trigger] l1[k] == l[j] by {
        if k == i {
            assert(l1[k] == l[l.len() - 1]);
        } else {
            assert(l1[k] == l[k]);
        }
    }
    assert forall|c: u32| #[trigger] codes_union(l).contains(c) implies (codes_union(l1) + l[i].0.leaf_codes()).contains(c) by {
        let j = choose|j: int| 0 <= j < l.len() && (#[trigger] l[j]).0.leaf_codes().contains(c);
        if j == i {
        } else if j == l.len() - 1 {
            assert(l1[i] == l[j]);
        } else {
            assert(l1[j] == l[j]);
        }
    }
    assert forall|c: u32| #[trigger] (codes_union(l1) + l[i].0.leaf_codes()).contains(c) implies codes_union(l).contains(c) by {
        if codes_union(l1).contains(c) {
            let k = choose|k: int| 0 <= k < l1.len() && (#[trigger] l1[k]).0.leaf_codes().contains(c);
            if k == i {
                assert(l[l.len() - 1] == l1[k]);
            } else {
                assert(l[k] == l1[k]);
            }
        } else {
            assert(l[i] == l[i]);
        }
    }
    assert((codes_union(l1) + l[i].0.leaf_codes()) =~= codes_union(l));
}

/// A list has no more distinct codes than elements.
pub proof fn lemma_codes_of_len<T: HuffmanSymbol>(s: Seq<T>)
    ensures
        codes_of(s).finite(),
        codes_of(s).len() <= s.len(),
{
    let m = s.map_values(|t: T| t.spec_code());
    assert(codes_of(s) =~= m.to_set()) by {
        assert forall|c: u32| #[trigger] codes_of(s).contains(c) implies m.to_set().contains(c) by {
            let j = choose|j: int| 0 <= j < s.len() && (#[trigger] s[j]).spec_code() == c;
            assert(m[j] == c);
        }
        assert forall|c: u32| #[trigger] m.to_set().contains(c) implies codes_of(s).contains(c) by {
            let j = choose|j: int| 0 <= j < m.len() && m[j] == c;
            assert(s[j].spec_code() == c);
        }
    }
    m.lemma_cardinality_of_set();
    vstd::seq_lib::seq_to_set_is_finite(m);
}

/// The numbers below `k` are finitely many: `k` of them.
pub proof fn lemma_below_set(k: u32)
    ensures
        Set::new(|x: u32| x < k).finite(),
        Set::new(|x: u32| x < k).len() == k,
    decreases k,
{
    if k == 0 {
        assert(Set::new(|x: u32| x < k) =~= Set::<u32>::empty());
    } else {
        lemma_below_set((k - 1) as u32);
        assert(Set::new(|x: u32| x < k) =~= Set::new(|x: u32| x < (k - 1) as u32).insert((k - 1) as u32));
    }
}

/// What a tree built from counts of the codes in `codes` looks like: its leaves hold exactly
/// those codes, it is no deeper than their number less one, and with two codes or more it is a
/// branch.
pub open spec fn tree_facts<T: HuffmanSymbol>(root: Node<T>, codes: Set<u32>) -> bool {
    &&& root.leaf_codes() == codes
    &&& codes.finite()
    &&& root.depth() < codes.len()
    &&& (codes.len() >= 2 ==> root is Branch)
}

/// How many symbols of `s` have the code `k`.
pub open spec fn count_code<T: HuffmanSymbol>(s: Seq<T>, k: u32) -> nat
    decreases s.len(),
{
    if s.len() == 0 {
        0
    } else {
        count_code(s.drop_last(), k) + if s.last().spec_code() == k {
            1nat
        } else {
            0nat
        }
    }
}

/// How often each code occurs among the symbols of `s`.
pub open spec fn code_counts<T: HuffmanSymbol>(s: Seq<T>) -> Map<u32, usize> {
    Map::new(|k: u32| codes_of(s).contains(k), |k: u32| count_code(s, k) as usize)
}

/// A code that no symbol of `s` has is counted zero times.
proof fn lemma_count_code_absent<T: HuffmanSymbol>(s: Seq<T>, k: u32)
    requires
        !codes_of(s).contains(k),
    ensures
        count_code(s, k) == 0,
    decreases s.len(),
{
    if s.len() > 0 {
        assert(s.last() == s[s.len() - 1]);
        assert(!codes_of(s.drop_last()).contains(k)) by {
            if codes_of(s.drop_last()).contains(k) {
                let j = choose|j: int| 0 <= j < s.drop_last().len() && (#[trigger] s.drop_last()[j]).spec_code() == k;
                assert(s[j] == s.drop_last()[j]);
            }
        }
        lemma_count_code_absent(s.drop_last(), k);
    }
}

/// The weight of a tree: the sum of the counts in `m` of its leaves' codes.
pub open spec fn tree_weight<T: HuffmanSymbol>(n: Node<T>, m: Map<u32, usize>) -> nat
    decreases n,
{
    match n {
        Node::Leaf(t) => m[t.spec_code()] as nat,
        Node::Branch { left, right } => tree_weight(*left, m) + tree_weight(*right, m),
    }
}

/// A tree's weight as counted in a `usize`, which stops at `usize::MAX`.
pub open spec fn counted_weight<T: HuffmanSymbol>(n: Node<T>, m: Map<u32, usize>) -> nat {
    if tree_weight(n, m) > usize::MAX {
        usize::MAX as nat
    } else {
        tree_weight(n, m)
    }
}

/// Whether `a` is one of the lightest trees of the forest `f`.
pub open spec fn lightest<T: HuffmanSymbol>(a: Node<T>, f: Multiset<Node<T>>, m: Map<u32, usize>) -> bool {
    &&& f.contains(a)
    &&& forall|x: Node<T>| #[trigger] f.contains(x) ==> counted_weight(a, m) <= counted_weight(x, m)
}

/// One step of Huffman's algorithm: `next` is the forest `prev` with a lightest tree `a`, and
/// then a lightest of the trees left, `b`, replaced by the branch that holds them.
pub open spec fn merge_step<T: HuffmanSymbol>(
    prev: Multiset<Node<T>>,
    a: Node<T>,
    b: Node<T>,
    next: Multiset<Node<T>>,
    m: Map<u32, usize>,
) -> bool {
    &&& lightest(a, prev, m)
    &&& lightest(b, prev.remove(a), m)
    &&& next == prev.remove(a).remove(b).insert(Node::Branch { left: Box::new(a), right: Box::new(b) })
}

/// Whether the forest `cur` comes from the forest `init` by `steps` steps of Huffman's
/// algorithm.
pub open spec fn merged_from<T: HuffmanSymbol>(
    init: Multiset<Node<T>>,
    cur: Multiset<Node<T>>,
    m: Map<u32, usize>,
    steps: nat,
) -> bool
    decreases steps,
{
    if steps == 0 {
        cur == init
    } else {
        exists|prev: Multiset<Node<T>>, a: Node<T>, b: Node<T>|
            #[trigger] merge_step(prev, a, b, cur, m) && merged_from(init, prev, m, (steps - 1) as nat)
    }
}

/// Whether the forest `init` holds one leaf for each code counted in `m`, and nothing else.
pub open spec fn leaf_forest<T: HuffmanSymbol>(init: Multiset<Node<T>>, m: Map<u32, usize>) -> bool {
    forall|x: Node<T>|
        #[trigger] init.count(x) == if x matches Node::Leaf(t) && m.contains_key(t.spec_code()) {
            1nat
        } else {
            0nat
        }
}

/// Whether `root` is a tree that Huffman's algorithm builds for the counts `m`: starting from
/// one leaf per code, it merges a lightest tree with a lightest of the rest until one tree is
/// left. (Which of several equally light trees it takes is not fixed.)
pub open spec fn huffman_tree<T: HuffmanSymbol>(root: Node<T>, m: Map<u32, usize>) -> bool {
    exists|init: Multiset<Node<T>>, steps: nat|
        leaf_forest(init, m) && #[trigger] merged_from(init, Multiset::singleton(root), m, steps)
}

/// The trees of a weighted list, as a forest.
pub open spec fn forest_of<T>(l: Seq<(Node<T>, usize)>) -> Multiset<Node<T>> {
    l.map_values(|p: (Node<T>, usize)| p.0).to_multiset()
}

/// Taking out the `i`th item by moving the last one into its place takes its tree out of the
/// forest.
proof fn lemma_swap_remove_forest<T>(l: Seq<(Node<T>, usize)>, i: int)
    requires
        0 <= i < l.len(),
    ensures
        forest_of(l.update(i, l.last()).drop_last()) == forest_of(l).remove(l[i].0),
{
    broadcast use vstd::seq_lib::group_to_multiset_ensures;
    let f = |p: (Node<T>, usize)| p.0;
    let s = l.map_values(f);
    let t = s.update(i, s.last());
    assert(l.update(i, l.last()).drop_last().map_values(f) =~= t.drop_last());
    assert(t.drop_last() =~= t.remove(t.len() - 1));
    assert(t.remove(i) =~= s.remove(i)) by {
        if i < s.len() - 1 {
        }
    }
    if i == s.len() - 1 {
        assert(t =~= s);
    } else {
        assert(t.to_multiset().remove(t[i]) =~= s.to_multiset().remove(s[i]));
        assert(t.to_multiset().count(t[i]) > 0) by {
            assert(t.contains(t[i]));
        }
        assert(t.to_multiset() =~= s.to_multiset().remove(s[i]).insert(s.last()));
        assert(t.to_multiset().remove(t[t.len() - 1]) =~= s.to_multiset().remove(s[i]));
    }
}

/// The item taken out by [`MinHeap::next`] holds a lightest tree of the forest, when each
/// item's weight is its tree's counted weight.
proof fn lemma_lightest<T: HuffmanSymbol>(l: Seq<(Node<T>, usize)>, i: int, m: Map<u32, usize>)
    requires
        0 <= i < l.len(),
        forall|j: int| 0 <= j < l.len() ==> l[j].1 >= l[i].1,
        forall|j: int| 0 <= j < l.len() ==> (#[trigger] l[j]).1 == counted_weight(l[j].0, m),
    ensures
        lightest(l[i].0, forest_of(l), m),
{
    broadcast use vstd::seq_lib::group_to_multiset_ensures;
    let s = l.map_values(|p: (Node<T>, usize)| p.0);
    assert(s[i] == l[i].0);
    assert(s.contains(l[i].0));
    assert forall|x: Node<T>| #[trigger] forest_of(l).contains(x) implies counted_weight(l[i].0, m)
        <= counted_weight(x, m) by {
        assert(s.contains(x));
        let j = choose|j: int| 0 <= j < s.len() && s[j] == x;
        assert(l[j].0 == x);
    }
}

/// The leaves made from a listing of the counts `m` form a [`leaf_forest`] of `m`.
proof fn lemma_leaf_forest<T: HuffmanSymbol>(
    leaves: Seq<(Node<T>, usize)>,
    list: Seq<(u32, usize)>,
    m: Map<u32, usize>,
)
    requires
        lists_entries(list, m),
        leaves.len() == list.len(),
        forall|j: int| 0 <= j < leaves.len() ==> (#[trigger] leaves[j]).0 is Leaf && leaves[j].0.leaf_codes()
            == set![list[j].0],
        forall|j: int| 0 <= j < leaves.len() ==> (#[trigger] leaves[j]).1 == list[j].1,
    ensures
        leaf_forest(forest_of(leaves), m),
        forall|j: int| 0 <= j < leaves.len() ==> (#[trigger] leaves[j]).1 == counted_weight(leaves[j].0, m),
{
    broadcast use vstd::seq_lib::group_to_multiset_ensures;
    let s = leaves.map_values(|p: (Node<T>, usize)| p.0);
    let keys = list.map_values(|e: (u32, usize)| e.0);
    assert forall|j: int| 0 <= j < leaves.len() implies (#[trigger] s[j]) matches Node::Leaf(t) && t.spec_code() == list[j].0 by {
        assert(s[j] == leaves[j].0);
        if let Node::Leaf(t) = leaves[j].0 {
            assert(set![t.spec_code()].contains(t.spec_code()));
            assert(set![list[j].0].contains(t.spec_code()));
        }
    }
    assert forall|j: int| 0 <= j < leaves.len() implies (#[trigger] leaves[j]).1 == counted_weight(leaves[j].0, m) by {
        assert(s[j] == leaves[j].0);
        assert(m.contains_key(list[j].0) && m[list[j].0] == list[j].1);
    }
    assert(s.no_duplicates()) by {
        assert forall|j: int, k: int| 0 <= j < s.len() && 0 <= k < s.len() && j != k implies s[j] != s[k] by {
            assert(s[j] matches Node::Leaf(t) && t.spec_code() == list[j].0);
            assert(s[k] matches Node::Leaf(t) && t.spec_code() == list[k].0);
            assert(keys[j] == list[j].0 && keys[k] == list[k].0);
        }
    }
    s.lemma_multiset_has_no_duplicates();
    assert forall|x: Node<T>| #[trigger] forest_of(leaves).count(x) == if x matches Node::Leaf(t) && m.contains_key(t.spec_code()) {
        1nat
    } else {
        0nat
    } by {
        if x matches Node::Leaf(t) && m.contains_key(t.spec_code()) {
            if let Node::Leaf(t) = x {
                let i = choose|i: int| 0 <= i < list.len() && list[i].0 == t.spec_code();
                assert(s[i] matches Node::Leaf(u) && u.spec_code() == t.spec_code());
                if let Node::Leaf(u) = s[i] {
                    T::lemma_code(u);
                    T::lemma_code(t);
                }
                assert(s.contains(x));
            }
        } else {
            if s.contains(x) {
                let j = choose|j: int| 0 <= j < s.len() && s[j] == x;
                assert(m.contains_key(list[j].0));
            }
        }
    }
}

/// A huffman coder: the tree, and a table from each symbol to its path for fast encoding.
pub struct Huffman<T> {
    to_bits: CodeTable,
    root: Node<T>,
}

impl<T: HuffmanSymbol> Huffman<T> {
    /// The tree.
    pub closed spec fn root(&self) -> Node<T> {
        self.root
    }

    /// The table holds exactly the tree's symbols, each with its path.
    pub closed spec fn wf(&self) -> bool {
        &&& code_table(self.to_bits).dom() == self.root.leaf_codes()
        &&& forall|c: u32| #[trigger]
            code_table(self.to_bits).contains_key(c) ==> code_table(self.to_bits)[c].wf()
                && self.root.path_to(c) == Some(code_table(self.to_bits)[c]@)
        &&& self.root.depth() <= usize::MAX
    }

    /// Adds the path of every leaf under `node` (after `bits_so_far`) to `to_bits`; where two
    /// leaves hold the same symbol, the one further right wins.
    fn add_node_to_table(node: &Node<T>, to_bits: &mut CodeTable, bits_so_far: Bits)
        requires
            bits_so_far.wf(),
            bits_so_far@.len() + node.depth() <= usize::MAX,
        ensures
            forall|c: u32| #[trigger]
                code_table(*final(to_bits)).contains_key(c) <==> code_table(*old(to_bits)).contains_key(c)
                    || node.leaf_codes().contains(c),
            forall|c: u32| #[trigger] node.leaf_codes().contains(c) ==> code_table(*final(to_bits))[c].wf()
                && Some(code_table(*final(to_bits))[c]@) == prefixed(node.path_to(c), bits_so_far@),
            forall|c: u32| !node.leaf_codes().contains(c) ==> #[trigger] code_table(*final(to_bits))[c]
                == code_table(*old(to_bits))[c],
        decreases node,
    {
        match node {
            Node::Leaf(ch) => {
                let ghost b = bits_so_far;
                to_bits.insert(ch.code(), bits_so_far);
                proof {
                    assert(b@ + Seq::<bool>::empty() =~= b@);
                }
            },
            Node::Branch { left, right } => {
                let mut left_bits = bits_so_far.duplicate();
                let mut right_bits = bits_so_far;
                left_bits.push(true);
                right_bits.push(false);
                let ghost lb = left_bits@;
                let ghost rb = right_bits@;
                Self::add_node_to_table(left, to_bits, left_bits);
                Self::add_node_to_table(right, to_bits, right_bits);
                proof {
                    assert forall|c: u32| #[trigger] node.leaf_codes().contains(c) implies code_table(
                        *to_bits,
                    )[c].wf() && Some(code_table(*to_bits)[c]@) == prefixed(node.path_to(c), bits_so_far@) by {
                        right.lemma_path_to(c);
                        left.lemma_path_to(c);
                        if right.leaf_codes().contains(c) {
                            let p = right.path_to(c).unwrap();
                            assert(rb + p =~= bits_so_far@ + (seq![false] + p));
                        } else {
                            let p = left.path_to(c).unwrap();
                            assert(lb + p =~= bits_so_far@ + (seq![true] + p));
                        }
                    }
                }
            },
        }
    }

    /// A coder for the tree `root`.
    fn from_root(root: Node<T>) -> (h: Self)
        requires
            root.depth() <= usize::MAX,
        ensures
            h.wf(),
            h.root() == root,
    {
        let mut to_bits = CodeTable::new();
        Self::add_node_to_table(&root, &mut to_bits, Bits::new());
        proof {
            assert(code_table(to_bits).dom() =~= root.leaf_codes());
            assert forall|c: u32| #[trigger] code_table(to_bits).contains_key(c) implies code_table(
                to_bits,
            )[c].wf() && root.path_to(c) == Some(code_table(to_bits)[c]@) by {
                root.lemma_path_to(c);
                assert(Seq::<bool>::empty() + root.path_to(c).unwrap() =~= root.path_to(c).unwrap());
            }
        }
        Huffman { to_bits, root }
    }

    /// Counts how often each symbol of `data` occurs and builds a tree from the counts.
    pub fn data_to_node_tree(data: &[T]) -> (r: Option<Node<T>>)
        ensures
            r is None <==> data@.len() == 0,
            r matches Some(root) ==> tree_facts(root, codes_of(data@)),
            r matches Some(root) ==> huffman_tree(root, code_counts(data@)),
            codes_of(data@).len() <= data@.len(),
    {
        let mut frequency_table = FrequencyTable::new();
        let mut i: usize = 0;
        proof {
            assert(frequencies(frequency_table).dom() =~= codes_of(data@.subrange(0, 0)));
        }
        while i < data.len()
            invariant
                i <= data@.len(),
                frequencies(frequency_table).dom() == codes_of(data@.subrange(0, i as int)),
                forall|k: u32| #[trigger]
                    frequencies(frequency_table).contains_key(k) ==> frequencies(frequency_table)[k]
                        <= i && T::spec_from_code(k) is Some,
                forall|k: u32| #[trigger]
                    frequencies(frequency_table).contains_key(k) ==> frequencies(frequency_table)[k]
                        == count_code(data@.subrange(0, i as int), k),
            decreases data.len() - i,
        {
            let c = data[i].code();
            let ghost before = frequencies(frequency_table);
            proof {
                let pre = data@.subrange(0, i as int);
                let now = data@.subrange(0, i as int + 1);
                assert(now.drop_last() =~= pre);
                assert(now.last() == data@[i as int]);
                if !before.contains_key(c) {
                    assert(!codes_of(pre).contains(c));
                    lemma_count_code_absent(pre, c);
                }
            }
            proof {
                T::lemma_code(data@[i as int]);
            }
            let count = match frequency_table.get(c) {
                Some(n) => n,
                None => 0,
            };
            frequency_table.insert(c, count + 1);
            i = i + 1;
            proof {
                let pre = data@.subrange(0, i as int - 1);
                let now = data@.subrange(0, i as int);
                assert forall|x: u32| #[trigger] codes_of(now).contains(x) == frequencies(frequency_table).dom().contains(x) by {
                    if codes_of(now).contains(x) {
                        let j = choose|j: int| 0 <= j < now.len() && (#[trigger] now[j]).spec_code() == x;
                        if j < pre.len() {
                            assert(pre[j] == now[j]);
                        }
                    }
                    if codes_of(pre).contains(x) {
                        let j = choose|j: int| 0 <= j < pre.len() && (#[trigger] pre[j]).spec_code() == x;
                        assert(pre[j] == now[j]);
                    }
                    if x == c {
                        assert(now[i as int - 1] == data@[i as int - 1]);
                    }
                }
                assert(frequencies(frequency_table).dom() =~= codes_of(now));
            }
        }
        proof {
            assert(data@.subrange(0, i as int) =~= data@);
            if data@.len() > 0 {
                assert(codes_of(data@).contains(data@[0].spec_code()));
            }
            lemma_codes_of_len(data@);
            assert(frequencies(frequency_table) =~= code_counts(data@));
        }
        Self::data_with_frequencies_to_node_tree(frequency_table)
    }

    /// Builds a tree by repeatedly joining the two lightest trees, starting from one leaf per
    /// entry of `data`; `None` if `data` is empty. Joined weights saturate at `usize::MAX`.
    fn data_with_frequencies_to_node_tree(data: FrequencyTable) -> (r: Option<Node<T>>)
        requires
            forall|k: u32| #[trigger] frequencies(data).contains_key(k) ==> T::spec_from_code(k) is Some,
        ensures
            r is None <==> frequencies(data).dom() == Set::<u32>::empty(),
            r matches Some(root) ==> tree_facts(root, frequencies(data).dom()),
            r matches Some(root) ==> huffman_tree(root, frequencies(data)),
    {
        let ghost m = frequencies(data);
        let list = data.entries();
        let ghost keys = list@.map_values(|e: (u32, usize)| e.0);
        proof {
            assert(keys.to_set() =~= m.dom()) by {
                assert forall|k: u32| #[trigger] m.dom().contains(k) implies keys.to_set().contains(k) by {
                    let i = choose|i: int| 0 <= i < list@.len() && list@[i].0 == k;
                    assert(keys[i] == k);
                }
                assert forall|k: u32| #[trigger] keys.to_set().contains(k) implies m.dom().contains(k) by {
                    let i = choose|i: int| 0 <= i < keys.len() && keys[i] == k;
                    assert(m.contains_key(list@[i].0));
                }
            }
            keys.unique_seq_to_set();
            vstd::seq_lib::seq_to_set_is_finite(keys);
        }
        if list.len() == 0 {
            proof {
                assert(m.dom() =~= Set::<u32>::empty());
            }
            return None;
        }
        let mut leaves: Vec<(Node<T>, usize)> = Vec::new();
        let mut i: usize = 0;
        while i < list.len()
            invariant
                i <= list@.len(),
                leaves@.len() == i,
                lists_entries(list@, m),
                forall|k: u32| #[trigger] m.contains_key(k) ==> T::spec_from_code(k) is Some,
                forall|j: int| 0 <= j < i ==> (#[trigger] leaves@[j]).0 is Leaf && leaves@[j].0.leaf_codes()
                    == set![list@[j].0],
                forall|j: int| 0 <= j < i ==> (#[trigger] leaves@[j]).1 == list@[j].1,
            decreases list.len() - i,
        {
            let (c, w) = list[i];
            assert(m.contains_key(list@[i as int].0));
            let t = match T::from_code(c) {
                Some(t) => t,
                None => {
                    proof {
                        assert(false);
                    }
                    return None;
                },
            };
            proof {
                T::lemma_from_code(c);
                assert(Node::Leaf(t).leaf_codes() =~= set![list@[i as int].0]);
            }
            leaves.push((Node::Leaf(t), w));
            i = i + 1;
        }
        let ghost n0 = leaves@.len();
        proof {
            assert(codes_union(leaves@) =~= m.dom()) by {
                assert forall|k: u32| #[trigger] m.dom().contains(k) implies codes_union(leaves@).contains(k) by {
                    let j = choose|j: int| 0 <= j < list@.len() && list@[j].0 == k;
                    assert(leaves@[j].0.leaf_codes().contains(k));
                }
                assert forall|k: u32| #[trigger] codes_union(leaves@).contains(k) implies m.dom().contains(k) by {
                    let j = choose|j: int| 0 <= j < leaves@.len() && (#[trigger] leaves@[j]).0.leaf_codes().contains(k);
                    assert(m.contains_key(list@[j].0));
                }
            }
            assert forall|j: int| 0 <= j < leaves@.len() implies (#[trigger] leaves@[j]).0.depth() <= 0 by {
            }
        }
        let ghost init = forest_of(leaves@);
        proof {
            lemma_leaf_forest(leaves@, list@, m);
        }
        let mut min_heap = MinHeap::new(leaves);
        let ghost mut merges: nat = 0;
        loop
            invariant
                min_heap.items().len() >= 1,
                m == frequencies(data),
                codes_union(min_heap.items()) == m.dom(),
                forall|j: int| 0 <= j < min_heap.items().len() ==> (#[trigger] min_heap.items()[j]).0.depth() <= merges,
                merges + min_heap.items().len() == n0,
                n0 == m.dom().len(),
                m.dom().finite(),
                merges > 0 ==> min_heap.items().last().0 is Branch,
                forall|j: int| 0 <= j < min_heap.items().len() ==> (#[trigger] min_heap.items()[j]).1
                    == counted_weight(min_heap.items()[j].0, m),
                leaf_forest(init, m),
                merged_from(init, forest_of(min_heap.items()), m, merges),
            decreases min_heap.items().len(),
        {
            let ghost l0 = min_heap.items();
            let (least_frequent, least_weight) = match min_heap.next() {
                Some(e) => e,
                None => {
                    proof {
                        assert(false);
                    }
                    return None;
                },
            };
            let ghost l1 = min_heap.items();
            let ghost i0 = choose|i: int| 0 <= i < l0.len() && (least_frequent, least_weight) == l0[i]
                && l1 == l0.update(i, l0.last()).drop_last()
                && (forall|j: int| 0 <= j < l0.len() ==> l0[j].1 >= least_weight);
            proof {
                lemma_swap_remove_codes(l0, i0);
                lemma_swap_remove_forest(l0, i0);
                lemma_lightest(l0, i0, m);
                assert(l0[i0].0.depth() <= merges);
            }
            let (next_least_frequent, next_weight) = match min_heap.next() {
                Some(e) => e,
                None => {
                    proof {
                        assert(l1.len() == 0);
                        assert(codes_union(l1) =~= Set::<u32>::empty());
                        assert(least_frequent.leaf_codes() =~= m.dom());
                        assert(i0 == 0);
                        if m.dom() == Set::<u32>::empty() {
                            assert(m.dom().len() == 0);
                        }
                        assert(least_frequent.depth() < m.dom().len());
                        assert(tree_facts(least_frequent, m.dom()));
                        assert(forest_of(l1) =~= Multiset::empty()) by {
                            broadcast use vstd::seq_lib::group_to_multiset_ensures;
                            assert(l1.map_values(|p: (Node<T>, usize)| p.0).len() == 0);
                            vstd::multiset::lemma_multiset_empty_len(forest_of(l1));
                        }
                        assert(forest_of(l0) =~= Multiset::singleton(least_frequent)) by {
                            broadcast use vstd::seq_lib::group_to_multiset_ensures;
                            broadcast use vstd::multiset::group_multiset_axioms;
                            assert(forest_of(l0).remove(least_frequent) =~= Multiset::empty());
                            let s0 = l0.map_values(|p: (Node<T>, usize)| p.0);
                            assert(s0[i0] == least_frequent);
                            assert(s0.contains(least_frequent));
                            assert(forest_of(l0).contains(least_frequent));
                            assert forall|x: Node<T>| forest_of(l0).count(x) == Multiset::singleton(least_frequent).count(x) by {
                                assert(forest_of(l0).remove(least_frequent).count(x) == 0);
                            }
                        }
                        assert(merged_from(init, Multiset::singleton(least_frequent), m, merges));
                    }
                    return Some(least_frequent);
                },
            };
            let ghost l2 = min_heap.items();
            proof {
                let i = choose|i: int| 0 <= i < l1.len() && (next_least_frequent, next_weight) == l1[i]
                    && l2 == l1.update(i, l1.last()).drop_last()
                    && (forall|j: int| 0 <= j < l1.len() ==> l1[j].1 >= next_weight);
                lemma_swap_remove_codes(l1, i);
                lemma_swap_remove_forest(l1, i);
                assert forall|j: int| 0 <= j < l1.len() implies (#[trigger] l1[j]).1 == counted_weight(l1[j].0, m) by {
                    let k = choose|k: int| 0 <= k < l0.len() && l1[j] == l0[k];
                }
                lemma_lightest(l1, i, m);
            }
            let new_node = Node::Branch {
                left: Box::new(least_frequent),
                right: Box::new(next_least_frequent),
            };
            let weight = least_weight.saturating_add(next_weight);
            let ghost new_tree = new_node;
            min_heap.push(new_node, weight);
            proof {
                let l3 = min_heap.items();
                assert(merge_step(forest_of(l0), least_frequent, next_least_frequent, forest_of(l3), m)) by {
                    assert(l3.map_values(|p: (Node<T>, usize)| p.0) =~= l2.map_values(|p: (Node<T>, usize)| p.0).push(new_tree));
                    broadcast use vstd::seq_lib::group_to_multiset_ensures;
                }
                assert(weight == counted_weight(new_tree, m));
                assert forall|j: int| 0 <= j < l3.len() implies (#[trigger] l3[j]).1 == counted_weight(l3[j].0, m) by {
                    if j < l2.len() {
                        assert(l3[j] == l2[j]);
                        let k = choose|k: int| 0 <= k < l1.len() && l2[j] == l1[k];
                        let k0 = choose|k0: int| 0 <= k0 < l0.len() && l1[k] == l0[k0];
                    }
                }
                assert(merged_from(init, forest_of(l3), m, merges + 1));
                merges = merges + 1;
                assert forall|j: int| 0 <= j < l3.len() implies (#[trigger] l3[j]).0.depth() <= merges by {
                    if j < l2.len() {
                        assert(l3[j] == l2[j]);
                        let k = choose|k: int| 0 <= k < l1.len() && l2[j] == l1[k];
                        let k0 = choose|k0: int| 0 <= k0 < l0.len() && l1[k] == l0[k0];
                    }
                }
                assert(codes_union(l3) =~= codes_union(l2) + new_node.leaf_codes()) by {
                    assert forall|c: u32| #[trigger] codes_union(l3).contains(c) implies (codes_union(l2) + new_node.leaf_codes()).contains(c) by {
                        let j = choose|j: int| 0 <= j < l3.len() && (#[trigger] l3[j]).0.leaf_codes().contains(c);
                        if j < l2.len() {
                            assert(l3[j] == l2[j]);
                        }
                    }
                    assert forall|c: u32| #[trigger] (codes_union(l2) + new_node.leaf_codes()).contains(c) implies codes_union(l3).contains(c) by {
                        if codes_union(l2).contains(c) {
                            let j = choose|j: int| 0 <= j < l2.len() && (#[trigger] l2[j]).0.leaf_codes().contains(c);
                            assert(l3[j] == l2[j]);
                        } else {
                            assert(l3[l3.len() - 1].0 == new_node);
                        }
                    }
                }
            }
        }
    }

    /// A coder for `data`, whose tree gives shorter paths to more common symbols; `None` if
    /// `data` is empty.
    pub fn new(data: &[T]) -> (r: Option<Self>)
        ensures
            r is None <==> data@.len() == 0,
            r matches Some(h) ==> h.wf() && tree_facts(h.root(), codes_of(data@)),
            r matches Some(h) ==> huffman_tree(h.root(), code_counts(data@)),
    {
        let len = data.len();
        let root = match Self::data_to_node_tree(data) {
            Some(root) => root,
            None => return None,
        };
        Some(Self::from_root(root))
    }

    /// The number of edges on the longest path from the root to a leaf.
    pub fn depth(&self) -> (d: usize)
        requires
            self.wf(),
        ensures
            d == self.root().depth(),
    {
        self.root.tree_depth()
    }

    /// Serialises the tree of this coder: see [`node_bytes`].
    pub fn ser(&self) -> (r: Vec<u8>)
        ensures
            r@ == node_bytes(self.root()),
    {
        self.root.ser()
    }

    /// Deserialises a coder whose tree was written by [`Huffman::ser`], and rebuilds its table.
    ///
    /// # Errors
    /// See [`parse_node`].
    pub fn deser(bytes: &mut Cursor<u8>) -> (r: Result<Self, HuffmanSerError>)
        requires
            old(bytes).wf(),
        ensures
            final(bytes).wf(),
            final(bytes).items() == old(bytes).items(),
            match parse_node::<T>(old(bytes).rest()) {
                Ok((n, k)) => r matches Ok(h) && h.wf() && h.root() == n && final(bytes).head()
                    == old(bytes).head() + k,
                Err(e) => r matches Err(e2) && e2 == e,
            },
    {
        proof {
            lemma_parse_node_len::<T>(old(bytes).rest());
        }
        let root = match Node::deser(bytes) {
            Ok(n) => n,
            Err(e) => return Err(e),
        };
        Ok(Self::from_root(root))
    }

    /// A coder for `data` together with the encoding of `data` itself; `None` if `data` is
    /// empty.
    pub fn new_and_encode(data: &[T]) -> (r: Option<(Self, Bits)>)
        requires
            data@.len() * codes_of(data@).len() <= usize::MAX,
        ensures
            r is None <==> data@.len() == 0,
            r matches Some((h, b)) ==> h.wf() && tree_facts(h.root(), codes_of(data@)) && b.wf()
                && Some(b@) == encode_path(h.root(), data@),
            r matches Some((h, b)) ==> huffman_tree(h.root(), code_counts(data@)),
    {
        let huffman = match Self::new(data) {
            Some(h) => h,
            None => return None,
        };
        proof {
            vstd::arithmetic::mul::lemma_mul_inequality(
                huffman.root().depth() as int,
                codes_of(data@).len() as int,
                data@.len() as int,
            );
            assert forall|i: int| 0 <= i < data@.len() implies huffman.root().leaf_codes().contains(
                #[trigger] data@[i].spec_code(),
            ) by {
                assert(codes_of(data@).contains(data@[i].spec_code()));
            }
            lemma_encode_path_some(huffman.root(), data@);
        }
        let encoded = match huffman.encode(data) {
            Some(b) => b,
            None => return None,
        };
        Some((huffman, encoded))
    }

    /// Encodes `from` as the paths of its symbols; `None` if one of them is not in the tree.
    pub fn encode(&self, from: &[T]) -> (r: Option<Bits>)
        requires
            self.wf(),
            from@.len() * self.root().depth() <= usize::MAX,
        ensures
            r matches Some(b) ==> b.wf(),
            r is None <==> encode_path(self.root(), from@) is None,
            r matches Some(b) ==> Some(b@) == encode_path(self.root(), from@),
    {
        let mut bits = Bits::new();
        let mut i: usize = 0;
        proof {
            assert(from@.subrange(0, 0) =~= Seq::<T>::empty());
        }
        while i < from.len()
            invariant
                self.wf(),
                i <= from@.len(),
                bits.wf(),
                encode_path(self.root(), from@.subrange(0, i as int)) == Some(bits@),
                bits@.len() <= i * self.root().depth(),
                from@.len() * self.root().depth() <= usize::MAX,
            decreases from.len() - i,
        {
            let ch = from[i];
            let ghost pre = from@.subrange(0, i as int);
            let ghost next = from@.subrange(0, i as int + 1);
            proof {
                assert(next.drop_last() =~= pre);
                self.root.lemma_path_to(ch.spec_code());
            }
            let bits_to_add = match self.to_bits.get(ch.code()) {
                Some(b) => b.duplicate(),
                None => {
                    proof {
                        assert(encode_path(self.root(), next) is None);
                        lemma_encode_path_none_extends(self.root(), from@, i as nat + 1);
                        assert(from@.subrange(0, from@.len() as int) =~= from@);
                    }
                    return None;
                },
            };
            proof {
                vstd::arithmetic::mul::lemma_mul_is_distributive_add_other_way(
                    self.root().depth() as int,
                    i as int,
                    1,
                );
                vstd::arithmetic::mul::lemma_mul_inequality(
                    i as int + 1,
                    from@.len() as int,
                    self.root().depth() as int,
                );
            }
            bits.push_many(bits_to_add);
            i = i + 1;
        }
        proof {
            assert(from@.subrange(0, i as int) =~= from@);
        }
        Some(bits)
    }

    /// Decodes `bits` by walking the tree: see [`decode_walk`]. `None` if the bits end part of
    /// the way down a path, so that they do not spell whole symbols (see [`walk_ends`]). A
    /// tree that is a single leaf cannot be walked, so it takes no bits.
    pub fn decode(&self, bits: Bits) -> (r: Option<Vec<T>>)
        requires
            self.wf(),
            bits.sound(),
            bits@.len() == 0 || self.root() is Branch,
        ensures
            r is Some <==> walk_ends(self.root(), self.root(), true, bits@),
            r matches Some(v) ==> v@ == decode_walk(self.root(), self.root(), bits@),
    {
        let mut result: Vec<T> = Vec::new();
        let mut current: &Node<T> = &self.root;
        let mut at_root = true;
        let n = bits.len();
        let mut i: usize = 0;
        assert(bits@.subrange(0, n as int) =~= bits@);
        assert(result@ + decode_walk(self.root(), *current, bits@) =~= decode_walk(self.root(), self.root(), bits@));
        while i < n
            invariant
                self.wf(),
                bits.sound(),
                n == bits@.len(),
                i <= n,
                i < n ==> *current is Branch,
                at_root ==> *current == self.root(),
                result@ + decode_walk(self.root(), *current, bits@.subrange(i as int, n as int))
                    == decode_walk(self.root(), self.root(), bits@),
                walk_ends(self.root(), *current, at_root, bits@.subrange(i as int, n as int))
                    == walk_ends(self.root(), self.root(), true, bits@),
            decreases n - i,
        {
            let next_direction = bits.index(i);
            let ghost rest = bits@.subrange(i as int, n as int);
            proof {
                assert(rest.drop_first() =~= bits@.subrange(i as int + 1, n as int));
            }
            match current {
                Node::Leaf(_) => {
                    proof {
                        assert(false);
                    }
                },
                Node::Branch { left, right } => {
                    let found: &Node<T> = if next_direction {
                        &**left
                    } else {
                        &**right
                    };
                    match found.leaf_contents() {
                        Some(t) => {
                            let t = *t;
                            result.push(t);
                            current = &self.root;
                            at_root = true;
                        },
                        None => {
                            current = found;
                            at_root = false;
                        },
                    }
                },
            }
            i = i + 1;
        }
        proof {
            assert(bits@.subrange(n as int, n as int).len() == 0);
        }
        if !at_root {
            return None;
        }
        Some(result)
    }
}

proof fn lemma_encode_path_none_extends<T: HuffmanSymbol>(root: Node<T>, s: Seq<T>, k: nat)
    requires
        k <= s.len(),
        encode_path(root, s.subrange(0, k as int)) is None,
    ensures
        encode_path(root, s.subrange(0, s.len() as int)) is None,
    decreases s.len() - k,
{
    if k < s.len() {
        assert(s.subrange(0, k as int + 1).drop_last() =~= s.subrange(0, k as int));
        lemma_encode_path_none_extends(root, s, k + 1);
    }
}

proof fn lemma_encode_path_some<T: HuffmanSymbol>(root: Node<T>, s: Seq<T>)
    requires
        forall|i: int| 0 <= i < s.len() ==> root.leaf_codes().contains(#[trigger] s[i].spec_code()),
    ensures
        encode_path(root, s) is Some,
    decreases s.len(),
{
    if s.len() > 0 {
        let s0 = s.drop_last();
        assert forall|i: int| 0 <= i < s0.len() implies root.leaf_codes().contains(#[trigger] s0[i].spec_code()) by {
            assert(s0[i] == s[i]);
        }
        lemma_encode_path_some(root, s0);
        root.lemma_path_to(s.last().spec_code());
    }
}

/// The bytes [`Node::ser`] writes: a zero byte before the two halves of a branch, and for a
/// leaf its code plus one as an [`Integer`] (which never starts with a zero byte).
pub open spec fn node_bytes<T: HuffmanSymbol>(n: Node<T>) -> Seq<u8>
    decreases n,
{
    match n {
        Node::Leaf(t) => encoding(SignedState::Positive, (t.spec_code() + 1) as nat).1,
        Node::Branch { left, right } => seq![0u8] + node_bytes(*left) + node_bytes(*right),
    }
}

/// What [`Node::deser`] reads at the front of `s`: a tree and the number of bytes it takes up,
/// or the error it reports.
pub open spec fn parse_node<T: HuffmanSymbol>(s: Seq<u8>) -> Result<(Node<T>, nat), HuffmanSerError>
    decreases s.len(),
{
    if s.len() == 0 {
        Err(HuffmanSerError::NotEnoughBytes)
    } else if s[0] == 0 {
        match parse_node::<T>(s.drop_first()) {
            Err(e) => Err(e),
            Ok((l, n1)) => if 1 + n1 <= s.len() {
                match parse_node::<T>(s.subrange((1 + n1) as int, s.len() as int)) {
                    Err(e) => Err(e),
                    Ok((r, n2)) => Ok((Node::Branch { left: Box::new(l), right: Box::new(r) }, 1 + n1 + n2)),
                }
            } else {
                Err(HuffmanSerError::NotEnoughBytes)
            },
        }
    } else {
        match decoding(s) {
            None => Err(HuffmanSerError::Integer(IntegerSerError::NotEnoughBytes)),
            Some((m, c)) => if m > u32::MAX {
                Err(HuffmanSerError::Integer(IntegerSerError::WrongType))
            } else if m == 0 {
                Err(HuffmanSerError::InvalidCharacter(u32::MAX))
            } else {
                match T::spec_from_code((m - 1) as u32) {
                    Some(t) => Ok((Node::Leaf(t), c)),
                    None => Err(HuffmanSerError::InvalidCharacter((m - 1) as u32)),
                }
            },
        }
    }
}

/// A parsed tree takes up at least one byte per branch, and no more bytes than there are.
pub proof fn lemma_parse_node_len<T: HuffmanSymbol>(s: Seq<u8>)
    ensures
        parse_node::<T>(s) matches Ok((n, k)) ==> n.depth() < k <= s.len(),
    decreases s.len(),
{
    if s.len() > 0 && s[0] == 0 {
        lemma_parse_node_len::<T>(s.drop_first());
        if let Ok((l, n1)) = parse_node::<T>(s.drop_first()) {
            if 1 + n1 <= s.len() {
                lemma_parse_node_len::<T>(s.subrange((1 + n1) as int, s.len() as int));
            }
        }
    }
}

/// Reading back what [`Node::ser`] wrote, with anything after it, gives the same tree and takes
/// up exactly the written bytes.
pub proof fn lemma_node_roundtrip<T: HuffmanSymbol>(n: Node<T>, rest: Seq<u8>)
    ensures
        parse_node::<T>(node_bytes(n) + rest) == Ok::<(Node<T>, nat), HuffmanSerError>((n, node_bytes(n).len())),
    decreases n,
{
    match n {
        Node::Leaf(t) => {
            T::lemma_code(t);
            let m = t.spec_code() + 1;
            lemma_encoding_roundtrip(SignedState::Positive, m as nat, rest);
            let b = encoding(SignedState::Positive, m as nat).1;
            assert((b + rest)[0] != 0);
        },
        Node::Branch { left, right } => {
            let bl = node_bytes(*left);
            let br = node_bytes(*right);
            let s = node_bytes(n) + rest;
            lemma_node_roundtrip(*left, br + rest);
            lemma_node_roundtrip(*right, rest);
            assert(s.drop_first() =~= bl + (br + rest));
            assert(s.subrange((1 + bl.len()) as int, s.len() as int) =~= br + rest);
        },
    }
}

/// Walking a path from a branch reaches the leaf at its end, then starts again at the root.
proof fn lemma_walk_path<T: HuffmanSymbol>(root: Node<T>, n: Node<T>, c: u32, rest: Seq<bool>)
    requires
        n is Branch,
        n.path_to(c) is Some,
    ensures
        decode_walk(root, n, n.path_to(c).unwrap() + rest) == seq![T::spec_from_code(c).unwrap()]
            + decode_walk(root, root, rest),
    decreases n,
{
    if let Node::Branch { left, right } = n {
        let p = n.path_to(c).unwrap();
        let bits = p + rest;
        if let Some(q) = right.path_to(c) {
            assert(bits.drop_first() =~= q + rest);
            match *right {
                Node::Leaf(t) => {
                    T::lemma_code(t);
                    assert(q.len() == 0);
                    assert(q + rest =~= rest);
                },
                Node::Branch { .. } => {
                    lemma_walk_path(root, *right, c, rest);
                },
            }
        } else {
            let q = left.path_to(c).unwrap();
            assert(bits.drop_first() =~= q + rest);
            match *left {
                Node::Leaf(t) => {
                    T::lemma_code(t);
                    assert(q + rest =~= rest);
                },
                Node::Branch { .. } => {
                    lemma_walk_path(root, *left, c, rest);
                },
            }
        }
    }
}

/// Walking a path from a branch reaches the leaf at its end and goes on from the root.
proof fn lemma_walk_path_ends<T: HuffmanSymbol>(root: Node<T>, n: Node<T>, at: bool, c: u32, rest: Seq<bool>)
    requires
        n is Branch,
        n.path_to(c) is Some,
    ensures
        walk_ends(root, n, at, n.path_to(c).unwrap() + rest) == walk_ends(root, root, true, rest),
    decreases n,
{
    if let Node::Branch { left, right } = n {
        let p = n.path_to(c).unwrap();
        let bits = p + rest;
        if let Some(q) = right.path_to(c) {
            assert(bits.drop_first() =~= q + rest);
            match *right {
                Node::Leaf(t) => {
                    T::lemma_code(t);
                    assert(q + rest =~= rest);
                },
                Node::Branch { .. } => {
                    lemma_walk_path_ends(root, *right, false, c, rest);
                },
            }
        } else {
            let q = left.path_to(c).unwrap();
            assert(bits.drop_first() =~= q + rest);
            match *left {
                Node::Leaf(t) => {
                    T::lemma_code(t);
                    assert(q + rest =~= rest);
                },
                Node::Branch { .. } => {
                    lemma_walk_path_ends(root, *left, false, c, rest);
                },
            }
        }
    }
}

/// Bits that encode symbols of a branch tree (then anything) end back at the root exactly
/// when what follows them does.
pub proof fn lemma_encoded_walk_ends<T: HuffmanSymbol>(root: Node<T>, s: Seq<T>, rest: Seq<bool>)
    requires
        root is Branch,
        forall|i: int| 0 <= i < s.len() ==> root.leaf_codes().contains(#[trigger] s[i].spec_code()),
    ensures
        encode_path(root, s) is Some,
        walk_ends(root, root, true, encode_path(root, s).unwrap() + rest) == walk_ends(root, root, true, rest),
    decreases s.len(),
{
    if s.len() == 0 {
        assert(Seq::<bool>::empty() + rest =~= rest);
    } else {
        let s0 = s.drop_last();
        let last = s.last();
        assert forall|i: int| 0 <= i < s0.len() implies root.leaf_codes().contains(#[trigger] s0[i].spec_code()) by {
            assert(s0[i] == s[i]);
        }
        root.lemma_path_to(last.spec_code());
        let q = root.path_to(last.spec_code()).unwrap();
        lemma_encoded_walk_ends(root, s0, q + rest);
        let p0 = encode_path(root, s0).unwrap();
        assert(p0 + q + rest =~= p0 + (q + rest));
        lemma_walk_path_ends(root, root, true, last.spec_code(), rest);
    }
}

/// Decoding bits that encode `s` (then anything) with a tree that is a branch gives back `s`
/// (then whatever the rest decodes to).
pub proof fn lemma_decode_encoded<T: HuffmanSymbol>(root: Node<T>, s: Seq<T>, rest: Seq<bool>)
    requires
        root is Branch,
        forall|i: int| 0 <= i < s.len() ==> root.leaf_codes().contains(#[trigger] s[i].spec_code()),
    ensures
        encode_path(root, s) is Some,
        decode_walk(root, root, encode_path(root, s).unwrap() + rest) == s + decode_walk(root, root, rest),
    decreases s.len(),
{
    if s.len() == 0 {
        assert(Seq::<bool>::empty() + rest =~= rest);
        assert(s + decode_walk(root, root, rest) =~= decode_walk(root, root, rest));
    } else {
        let s0 = s.drop_last();
        let last = s.last();
        assert forall|i: int| 0 <= i < s0.len() implies root.leaf_codes().contains(#[trigger] s0[i].spec_code()) by {
            assert(s0[i] == s[i]);
        }
        root.lemma_path_to(last.spec_code());
        let q = root.path_to(last.spec_code()).unwrap();
        lemma_decode_encoded(root, s0, q + rest);
        let p0 = encode_path(root, s0).unwrap();
        assert(p0 + q + rest =~= p0 + (q + rest));
        lemma_walk_path(root, root, last.spec_code(), rest);
        T::lemma_code(last);
        assert(s =~= s0 + seq![last]);
        assert(s0 + (seq![last] + decode_walk(root, root, rest)) =~= s + decode_walk(root, root, rest));
    }
}

/// Decoding what a coder encoded gives back the encoded symbols, as long as the tree is a
/// branch (the single-leaf tree encodes everything as no bits at all) and every symbol is in
/// it.
pub proof fn lemma_huffman_roundtrip<T: HuffmanSymbol>(h: Huffman<T>, s: Seq<T>)
    requires
        h.wf(),
        h.root() is Branch,
        forall|i: int| 0 <= i < s.len() ==> h.root().leaf_codes().contains(#[trigger] s[i].spec_code()),
    ensures
        encode_path(h.root(), s) is Some,
        decode_walk(h.root(), h.root(), encode_path(h.root(), s).unwrap()) == s,
        walk_ends(h.root(), h.root(), true, encode_path(h.root(), s).unwrap()),
{
    lemma_decode_encoded(h.root(), s, Seq::empty());
    lemma_encoded_walk_ends(h.root(), s, Seq::empty());
    assert(encode_path(h.root(), s).unwrap() + Seq::<bool>::empty() =~= encode_path(h.root(), s).unwrap());
    assert(s + Seq::<T>::empty() =~= s);
}

/// Calls `String::from_iter` over chars, which collects them in order.
#[verifier::external_body]
pub(crate) fn string_from_chars(chars: &[char]) -> (s: String)
    ensures
        s@ == chars@,
{
    chars.iter().collect()
}

/// The characters of a string, in order.
pub fn chars_of(s: &str) -> (v: Vec<char>)
    ensures
        v@ == s@,
{
    let mut v: Vec<char> = Vec::new();
    for c in it: s.chars()
        invariant
            v@ == it.seq().take(it.index() as int),
    {
        v.push(c);
    }
    v
}

/// How often each character occurs in English text (the Reuters-21578 corpus), by code.
pub open spec fn english_frequencies() -> Seq<(u8, usize)> {
    seq![
        (32u8, 2643715usize), (101, 1358462), (116, 998648), (97, 966445), (110, 868336),
        (105, 864695), (111, 854979), (115, 818629), (114, 812926), (108, 507744),
        (100, 503130), (104, 413245), (99, 394475), (10, 308889), (117, 303678),
        (109, 286203), (112, 273927), (102, 248498), (103, 202023), (46, 174421),
        (121, 171873), (98, 163239), (119, 150923), (44, 136229), (118, 123365),
        (48, 93385), (107, 78030), (49, 77905), (83, 48747), (84, 48438), (67, 47133),
        (50, 43486), (56, 40276), (53, 39868), (65, 39088), (57, 38532), (120, 36389),
        (51, 34498), (73, 32991), (45, 32765), (54, 30291), (52, 29007), (55, 28783),
        (77, 28612), (66, 27432), (34, 24856), (39, 23790), (80, 21916), (69, 20413),
        (78, 20130), (70, 19253), (82, 17414), (68, 17241), (85, 16450), (113, 15912),
        (76, 15848), (71, 14689), (74, 13907), (72, 13809), (79, 12954), (87, 12698),
        (106, 9744), (122, 9092), (47, 8198), (60, 6959), (62, 6949), (75, 6008),
        (41, 5229), (40, 5219), (86, 4033), (89, 3975), (58, 1899), (81, 1578), (90, 1360),
        (88, 1037), (59, 117), (63, 73), (127, 49), (94, 35), (38, 32), (43, 24), (91, 11),
        (93, 10), (33, 8), (36, 8), (42, 7), (61, 4), (126, 3), (9, 2), (95, 2), (27, 1),
        (123, 1), (5, 1), (30, 1), (64, 1)
    ]
}

/// The counts that [`english_frequencies`] gives each code, a later entry for a code taking
/// the place of an earlier one.
pub open spec fn counts_table(s: Seq<(u8, usize)>) -> Map<u32, usize>
    decreases s.len(),
{
    if s.len() == 0 {
        Map::empty()
    } else {
        counts_table(s.drop_last()).insert(s.last().0 as u32, s.last().1)
    }
}

/// The codes of the characters in [`english_frequencies`].
pub open spec fn english_codes() -> Set<u32> {
    Set::new(
        |c: u32|
            exists|j: int|
                0 <= j < english_frequencies().len() && (#[trigger] english_frequencies()[j]).0 as u32
                    == c,
    )
}

impl Huffman<char> {
    /// A coder for the characters of `s`; `None` if it is empty.
    pub fn new_str(s: &str) -> (r: Option<Self>)
        ensures
            r is None <==> s@.len() == 0,
            r matches Some(h) ==> h.wf() && tree_facts(h.root(), codes_of(s@)),
            r matches Some(h) ==> huffman_tree(h.root(), code_counts(s@)),
    {
        let chars = chars_of(s);
        Self::new(&chars)
    }

    /// Encodes the characters of `s`; `None` if one of them is not in the tree.
    pub fn encode_string(&self, s: &str) -> (r: Option<Bits>)
        requires
            self.wf(),
            s@.len() * self.root().depth() <= usize::MAX,
        ensures
            r matches Some(b) ==> b.wf(),
            r is None <==> encode_path(self.root(), s@) is None,
            r matches Some(b) ==> Some(b@) == encode_path(self.root(), s@),
    {
        let chars = chars_of(s);
        self.encode(&chars)
    }

    /// Decodes `bits` into a string: see [`Huffman::decode`].
    pub fn decode_string(&self, bits: Bits) -> (r: Option<String>)
        requires
            self.wf(),
            bits.sound(),
            bits@.len() == 0 || self.root() is Branch,
        ensures
            r is Some <==> walk_ends(self.root(), self.root(), true, bits@),
            r matches Some(s) ==> s@ == decode_walk(self.root(), self.root(), bits@),
    {
        let decoded = match self.decode(bits) {
            Some(v) => v,
            None => return None,
        };
        Some(string_from_chars(&decoded))
    }

    /// A coder built from how often characters occur in English text (the Reuters-21578
    /// corpus).
    pub fn new_with_english_frequencies() -> (h: Self)
        ensures
            h.wf(),
            h.root() is Branch,
            tree_facts(h.root(), english_codes()),
            huffman_tree(h.root(), counts_table(english_frequencies())),
    {
        let freqs: Vec<(u8, usize)> = vec![
            (32u8, 2643715usize), (101, 1358462), (116, 998648), (97, 966445), (110, 868336),
            (105, 864695), (111, 854979), (115, 818629), (114, 812926), (108, 507744),
            (100, 503130), (104, 413245), (99, 394475), (10, 308889), (117, 303678),
            (109, 286203), (112, 273927), (102, 248498), (103, 202023), (46, 174421),
            (121, 171873), (98, 163239), (119, 150923), (44, 136229), (118, 123365),
            (48, 93385), (107, 78030), (49, 77905), (83, 48747), (84, 48438), (67, 47133),
            (50, 43486), (56, 40276), (53, 39868), (65, 39088), (57, 38532), (120, 36389),
            (51, 34498), (73, 32991), (45, 32765), (54, 30291), (52, 29007), (55, 28783),
            (77, 28612), (66, 27432), (34, 24856), (39, 23790), (80, 21916), (69, 20413),
            (78, 20130), (70, 19253), (82, 17414), (68, 17241), (85, 16450), (113, 15912),
            (76, 15848), (71, 14689), (74, 13907), (72, 13809), (79, 12954), (87, 12698),
            (106, 9744), (122, 9092), (47, 8198), (60, 6959), (62, 6949), (75, 6008),
            (41, 5229), (40, 5219), (86, 4033), (89, 3975), (58, 1899), (81, 1578), (90, 1360),
            (88, 1037), (59, 117), (63, 73), (127, 49), (94, 35), (38, 32), (43, 24), (91, 11),
            (93, 10), (33, 8), (36, 8), (42, 7), (61, 4), (126, 3), (9, 2), (95, 2), (27, 1),
            (123, 1), (5, 1), (30, 1), (64, 1),
        ];
        assert(freqs@ =~= english_frequencies());
        let mut table = FrequencyTable::new();
        let mut i: usize = 0;
        while i < freqs.len()
            invariant
                i <= freqs@.len(),
                freqs@.len() >= 2,
                forall|k: u32| #[trigger] frequencies(table).contains_key(k) ==> k < 256,
                i >= 1 ==> frequencies(table).contains_key(32),
                i >= 2 ==> frequencies(table).contains_key(101),
                freqs@[0].0 == 32u8 && freqs@[1].0 == 101u8,
                forall|k: u32|
                    #[trigger] frequencies(table).contains_key(k) <==> exists|j: int|
                        0 <= j < i && (#[trigger] freqs@[j]).0 as u32 == k,
                frequencies(table) == counts_table(freqs@.take(i as int)),
            decreases freqs.len() - i,
        {
            let (ch, f) = freqs[i];
            let ghost before = frequencies(table);
            table.insert(ch as u32, f);
            proof {
                assert(freqs@.take(i + 1).drop_last() =~= freqs@.take(i as int));
                assert(freqs@.take(i + 1).last() == freqs@[i as int]);
                assert forall|k: u32|
                    #[trigger] frequencies(table).contains_key(k) <==> exists|j: int|
                        0 <= j < i + 1 && (#[trigger] freqs@[j]).0 as u32 == k by {
                    if frequencies(table).contains_key(k) {
                        if k == ch as u32 {
                            assert(freqs@[i as int].0 as u32 == k);
                        } else {
                            assert(before.contains_key(k));
                        }
                    }
                    if exists|j: int| 0 <= j < i + 1 && (#[trigger] freqs@[j]).0 as u32 == k {
                        let j = choose|j: int| 0 <= j < i + 1 && (#[trigger] freqs@[j]).0 as u32 == k;
                        if j < i {
                            assert(before.contains_key(k));
                        }
                    }
                }
            }
            i = i + 1;
        }
        proof {
            assert(freqs@.take(freqs@.len() as int) =~= freqs@);
            assert(frequencies(table).dom() =~= english_codes());
            assert forall|k: u32| #[trigger] frequencies(table).contains_key(k) implies char::spec_from_code(k) is Some by {}
            lemma_below_set(256);
            vstd::set_lib::lemma_len_subset(frequencies(table).dom(), Set::new(|x: u32| x < 256));
            assert(frequencies(table).dom() != Set::<u32>::empty()) by {
                assert(frequencies(table).dom().contains(32));
            }
            assert(frequencies(table).dom().len() >= 2) by {
                let d = frequencies(table).dom();
                assert(d.remove(32).contains(101));
                vstd::set::axiom_set_remove_len(d, 32);
            }
        }
        let root = match Self::data_with_frequencies_to_node_tree(table) {
            Some(r) => r,
            None => {
                proof {
                    assert(false);
                }
                return Self::from_root(Node::Leaf(' '));
            },
        };
        Self::from_root(root)
    }
}

} // verus!
