//! An order-5 B-tree: every node holds at most five elements in ascending
//! order, an inner node has one more child than it has elements, and every
//! element of a child lies between the two elements that surround it.
use crate::text::{decimal, push_char, push_decimal, push_str};
use vstd::multiset::Multiset;
use vstd::prelude::*;

verus! {

pub const ORDER: usize = 5;

pub const ELEMENTS_LEN: usize = ORDER;

pub const POINTERS_LEN: usize = ORDER + 1;

pub const MIDLE: usize = ORDER / 2;

/// What a B-tree element must offer: an integer key that orders it, the two
/// comparisons the tree makes, and how it is written out.
pub trait BTreeKey: Sized {
    /// The position of the element in the order of the tree.
    spec fn key(&self) -> int;

    /// How the element is written out.
    spec fn rendered(&self) -> Seq<char>;

    fn key_lt(&self, other: &Self) -> (r: bool)
        ensures
            r == (self.key() < other.key()),
    ;

    fn key_eq(&self, other: &Self) -> (r: bool)
        ensures
            r == (self.key() == other.key()),
    ;

    fn render(&self, out: &mut String)
        ensures
            final(out)@ == old(out)@ + self.rendered(),
    ;
}

impl BTreeKey for u32 {
    open spec fn key(&self) -> int {
        *self as int
    }

    open spec fn rendered(&self) -> Seq<char> {
        decimal(*self as nat)
    }

    fn key_lt(&self, other: &Self) -> (r: bool) {
        *self < *other
    }

    fn key_eq(&self, other: &Self) -> (r: bool) {
        *self == *other
    }

    fn render(&self, out: &mut String) {
        push_decimal(out, *self as u64);
    }
}

impl BTreeKey for u64 {
    open spec fn key(&self) -> int {
        *self as int
    }

    open spec fn rendered(&self) -> Seq<char> {
        decimal(*self as nat)
    }

    fn key_lt(&self, other: &Self) -> (r: bool) {
        *self < *other
    }

    fn key_eq(&self, other: &Self) -> (r: bool) {
        *self == *other
    }

    fn render(&self, out: &mut String) {
        push_decimal(out, *self);
    }
}

/// Every key in `m` is at most `k`.
pub open spec fn all_le(m: Multiset<int>, k: int) -> bool {
    forall|x: int| #[trigger] m.count(x) > 0 ==> x <= k
}

/// Every key in `m` is at least `k`.
pub open spec fn all_ge(m: Multiset<int>, k: int) -> bool {
    forall|x: int| #[trigger] m.count(x) > 0 ==> x >= k
}

/// A node of the tree: its elements, and its children (none for a leaf).
pub struct BTree<T> {
    pub elements: Vec<T>,
    pub pointers: Vec<BTree<T>>,
}

/// The layout of a tree as plain values: the elements of each node and the
/// nodes below it.
#[verifier::ext_equal]
pub struct Shape<T> {
    pub elements: Seq<T>,
    pub children: Seq<Shape<T>>,
}

/// What inserting into a node gives: the node with the element in it, or, when
/// the node was full, its median and the two halves around it.
#[verifier::ext_equal]
pub enum Inserted<T> {
    Fits(Shape<T>),
    Splits(T, Shape<T>, Shape<T>),
}

/// Where the binary search of `find_index` ends among `e[lo..hi]`: at an
/// element with the key of `x`, or at the first place whose key is greater.
pub open spec fn search<T: BTreeKey>(e: Seq<T>, x: T, lo: int, hi: int) -> int
    decreases hi - lo,
{
    if lo < hi {
        let mid = (lo + hi) / 2;
        if e[mid].key() == x.key() {
            mid
        } else if e[mid].key() < x.key() {
            search(e, x, mid + 1, hi)
        } else {
            search(e, x, lo, mid)
        }
    } else {
        lo
    }
}

/// Inserting `x` below a node of layout `n`: the element goes down to a leaf
/// by binary search. A full leaf splits around its third element, the two
/// halves keep two elements each, and `x` goes to the left half when its key
/// is below the median's, else to the right. A split child puts its median and
/// halves in its place; a full inner node that takes them splits in turn, the
/// half that held the child taking them in.
#[verifier::opaque]
pub open spec fn insert_shape<T: BTreeKey>(n: Shape<T>, x: T) -> Inserted<T>
    decreases n,
{
    let e = n.elements;
    let c = n.children;
    let idx = search(e, x, 0, e.len() as int);
    if 0 <= idx < c.len() {
        match insert_shape(c[idx], x) {
            Inserted::Fits(c2) => Inserted::Fits(Shape { elements: e, children: c.update(idx, c2) }),
            Inserted::Splits(m, l, r) => if e.len() == ELEMENTS_LEN {
                if idx <= MIDLE {
                    Inserted::Splits(
                        e[MIDLE as int],
                        Shape {
                            elements: e.take(MIDLE as int).insert(idx, m),
                            children: c.take(MIDLE + 1).update(idx, l).insert(idx + 1, r),
                        },
                        Shape { elements: e.skip(MIDLE + 1), children: c.skip(MIDLE + 1) },
                    )
                } else {
                    let j = idx - (MIDLE + 1);
                    Inserted::Splits(
                        e[MIDLE as int],
                        Shape { elements: e.take(MIDLE as int), children: c.take(MIDLE + 1) },
                        Shape {
                            elements: e.skip(MIDLE + 1).insert(j, m),
                            children: c.skip(MIDLE + 1).update(j, l).insert(j + 1, r),
                        },
                    )
                }
            } else {
                Inserted::Fits(
                    Shape { elements: e.insert(idx, m), children: c.update(idx, l).insert(idx + 1, r) },
                )
            },
        }
    } else if e.len() == ELEMENTS_LEN {
        let left = e.take(MIDLE as int);
        let right = e.skip(MIDLE + 1);
        if x.key() < e[MIDLE as int].key() {
            Inserted::Splits(
                e[MIDLE as int],
                Shape { elements: left.insert(search(left, x, 0, left.len() as int), x), children: c },
                Shape { elements: right, children: c },
            )
        } else {
            Inserted::Splits(
                e[MIDLE as int],
                Shape { elements: left, children: c },
                Shape { elements: right.insert(search(right, x, 0, right.len() as int), x), children: c },
            )
        }
    } else {
        Inserted::Fits(Shape { elements: e.insert(idx, x), children: c })
    }
}

/// The layout of a tree after inserting `x`: when the root splits, a new root
/// holds just the median, over the two halves.
pub open spec fn tree_insert<T: BTreeKey>(n: Shape<T>, x: T) -> Shape<T> {
    match insert_shape(n, x) {
        Inserted::Fits(s) => s,
        Inserted::Splits(m, l, r) => Shape { elements: seq![m], children: seq![l, r] },
    }
}

/// Whether `v` is one of the elements stored in the layout `n`.
pub open spec fn holds<T>(n: Shape<T>, v: T) -> bool
    decreases n,
{
    n.elements.contains(v) || exists|i: int| 0 <= i < n.children.len() && holds(#[trigger] n.children[i], v)
}

/// What a node that had to split hands to its parent: the median element and
/// the two halves around it.
struct OverFlow<T> {
    element: T,
    left: BTree<T>,
    right: BTree<T>,
}

/// The multiset of the keys of `s`.
pub open spec fn keys_of<T: BTreeKey>(s: Seq<T>) -> Multiset<int>
    decreases s.len(),
{
    if s.len() == 0 {
        Multiset::empty()
    } else {
        keys_of(s.drop_last()).insert(s.last().key())
    }
}

impl<T: BTreeKey> BTree<T> {
    /// The keys held by this node and all nodes below it.
    pub closed spec fn items(&self) -> Multiset<int>
        decreases self,
    {
        keys_of(self.elements@).add(Self::forest_items(self.pointers@))
    }

    /// The keys held by a sequence of subtrees.
    pub closed spec fn forest_items(s: Seq<BTree<T>>) -> Multiset<int>
        decreases s,
    {
        if s.len() == 0 {
            Multiset::empty()
        } else {
            Self::forest_items(s.drop_last()).add(s.last().items())
        }
    }
}


/// Keys of `e` ascend (equal keys may repeat).
pub open spec fn sorted<T: BTreeKey>(e: Seq<T>) -> bool {
    forall|i: int, j: int| 0 <= i <= j < e.len() ==> e[i].key() <= e[j].key()
}

impl<T: BTreeKey> BTree<T> {
    /// The number of levels below this node: 0 for a leaf.
    pub closed spec fn height(&self) -> nat
        decreases self,
    {
        if self.pointers.len() == 0 {
            0
        } else {
            self.pointers@[0].height() + 1
        }
    }

    /// Each child lies between the elements that surround it.
    pub closed spec fn children_bounded(e: Seq<T>, p: Seq<BTree<T>>) -> bool {
        &&& forall|i: int|
            0 < i < p.len() && i - 1 < e.len() ==> all_ge(#[trigger] p[i].items(), e[i - 1].key())
        &&& forall|i: int| 0 <= i < p.len() && i < e.len() ==> all_le(#[trigger] p[i].items(), e[i].key())
    }

    /// Every subtree is well formed and at least half full.
    pub closed spec fn children_wf(p: Seq<BTree<T>>) -> bool
        decreases p,
    {
        forall|i: int| 0 <= i < p.len() ==> (#[trigger] p[i]).wf() && p[i].elements.len() >= MIDLE
    }

    /// Every subtree has height `h`.
    pub closed spec fn children_height(p: Seq<BTree<T>>, h: nat) -> bool {
        forall|i: int| 0 <= i < p.len() ==> (#[trigger] p[i]).height() == h
    }

    /// The shape of a node: at most five elements, and either no children or
    /// one more child than elements.
    pub closed spec fn shape_ok(e: Seq<T>, p: Seq<BTree<T>>) -> bool {
        &&& e.len() <= ELEMENTS_LEN
        &&& (p.len() == 0 || (e.len() > 0 && p.len() == e.len() + 1))
    }

    /// The invariant of a B-tree node and all nodes below it: the shape holds,
    /// elements ascend, every child lies between its surrounding elements, all
    /// children have the same height (so every leaf is equally deep), and every
    /// node below this one holds at least two elements.
    pub closed spec fn wf(&self) -> bool
        decreases self,
    {
        &&& Self::shape_ok(self.elements@, self.pointers@)
        &&& sorted(self.elements@)
        &&& Self::children_bounded(self.elements@, self.pointers@)
        &&& Self::children_height(self.pointers@, (self.height() - 1) as nat)
        &&& Self::children_wf(self.pointers@)
    }
}

impl<T: BTreeKey> BTree<T> {
    /// The layout of this node and all nodes below it.
    pub open spec fn shape(&self) -> Shape<T>
        decreases self,
    {
        Shape { elements: self.elements@, children: Self::forest_shape(self.pointers@) }
    }

    /// The layouts of a sequence of subtrees.
    pub open spec fn forest_shape(s: Seq<BTree<T>>) -> Seq<Shape<T>>
        decreases s,
    {
        if s.len() == 0 {
            Seq::empty()
        } else {
            Self::forest_shape(s.drop_last()).push(s.last().shape())
        }
    }

    /// The layouts of a sequence of subtrees, one by one.
    pub proof fn lemma_forest_shape(s: Seq<BTree<T>>)
        ensures
            Self::forest_shape(s).len() == s.len(),
            forall|i: int| 0 <= i < s.len() ==> #[trigger] Self::forest_shape(s)[i] == s[i].shape(),
        decreases s.len(),
    {
        if s.len() > 0 {
            Self::lemma_forest_shape(s.drop_last());
            assert forall|i: int| 0 <= i < s.len() implies #[trigger] Self::forest_shape(s)[i]
                == s[i].shape() by {
                if i < s.len() - 1 {
                    assert(s.drop_last()[i] == s[i]);
                }
            }
        }
    }
}

impl<T: BTreeKey> BTree<T> {
    proof fn lemma_shapes_update(p: Seq<BTree<T>>, i: int, c: BTree<T>)
        requires
            0 <= i < p.len(),
        ensures
            Self::forest_shape(p.update(i, c)) =~= Self::forest_shape(p).update(i, c.shape()),
    {
        Self::lemma_forest_shape(p);
        Self::lemma_forest_shape(p.update(i, c));
    }

    proof fn lemma_shapes_absorb(p: Seq<BTree<T>>, i: int, l: BTree<T>, r: BTree<T>)
        requires
            0 <= i < p.len(),
        ensures
            Self::forest_shape(p.update(i, l).insert(i + 1, r)) =~= Self::forest_shape(p).update(
                i,
                l.shape(),
            ).insert(i + 1, r.shape()),
    {
        Self::lemma_forest_shape(p);
        Self::lemma_forest_shape(p.update(i, l).insert(i + 1, r));
    }

    proof fn lemma_shapes_cut(p: Seq<BTree<T>>, k: int)
        requires
            0 <= k <= p.len(),
        ensures
            Self::forest_shape(p.take(k)) =~= Self::forest_shape(p).take(k),
            Self::forest_shape(p.skip(k)) =~= Self::forest_shape(p).skip(k),
    {
        Self::lemma_forest_shape(p);
        Self::lemma_forest_shape(p.take(k));
        Self::lemma_forest_shape(p.skip(k));
    }
}

impl<T: BTreeKey> View for BTree<T> {
    type V = Multiset<int>;

    /// The keys in the tree, as many times each as it was inserted.
    closed spec fn view(&self) -> Multiset<int> {
        self.items()
    }
}

proof fn lemma_keys_concat<T: BTreeKey>(a: Seq<T>, b: Seq<T>)
    ensures
        keys_of(a + b) =~= keys_of(a).add(keys_of(b)),
    decreases b.len(),
{
    if b.len() == 0 {
        assert(a + b =~= a);
    } else {
        lemma_keys_concat(a, b.drop_last());
        assert((a + b).drop_last() =~= a + b.drop_last());
    }
}

proof fn lemma_keys_count<T: BTreeKey>(s: Seq<T>, k: int)
    ensures
        keys_of(s).count(k) > 0 <==> exists|i: int| 0 <= i < s.len() && (#[trigger] s[i]).key() == k,
    decreases s.len(),
{
    if s.len() > 0 {
        lemma_keys_count(s.drop_last(), k);
        if keys_of(s.drop_last()).count(k) > 0 {
            let i = choose|i: int| 0 <= i < s.drop_last().len() && (#[trigger] s.drop_last()[i]).key() == k;
            assert(s[i] == s.drop_last()[i]);
        }
        if exists|i: int| 0 <= i < s.len() && (#[trigger] s[i]).key() == k {
            let i = choose|i: int| 0 <= i < s.len() && (#[trigger] s[i]).key() == k;
            if i < s.len() - 1 {
                assert(s.drop_last()[i] == s[i]);
            }
        }
    }
}

impl<T: BTreeKey> BTree<T> {
    proof fn lemma_forest_concat(a: Seq<BTree<T>>, b: Seq<BTree<T>>)
        ensures
            Self::forest_items(a + b) =~= Self::forest_items(a).add(Self::forest_items(b)),
        decreases b.len(),
    {
        if b.len() == 0 {
            assert(a + b =~= a);
        } else {
            Self::lemma_forest_concat(a, b.drop_last());
            assert((a + b).drop_last() =~= a + b.drop_last());
        }
    }

    proof fn lemma_forest_single(x: BTree<T>)
        ensures
            Self::forest_items(seq![x]) =~= x.items(),
    {
        assert(seq![x].drop_last() =~= Seq::<BTree<T>>::empty());
        assert(Self::forest_items(Seq::<BTree<T>>::empty()) == Multiset::<int>::empty());
    }

    proof fn lemma_forest_count(s: Seq<BTree<T>>, k: int)
        ensures
            Self::forest_items(s).count(k) > 0 <==> exists|i: int|
                0 <= i < s.len() && (#[trigger] s[i]).items().count(k) > 0,
        decreases s.len(),
    {
        if s.len() > 0 {
            Self::lemma_forest_count(s.drop_last(), k);
            if Self::forest_items(s.drop_last()).count(k) > 0 {
                let i = choose|i: int|
                    0 <= i < s.drop_last().len() && (#[trigger] s.drop_last()[i]).items().count(k) > 0;
                assert(s[i] == s.drop_last()[i]);
            }
            if exists|i: int| 0 <= i < s.len() && (#[trigger] s[i]).items().count(k) > 0 {
                let i = choose|i: int| 0 <= i < s.len() && (#[trigger] s[i]).items().count(k) > 0;
                if i < s.len() - 1 {
                    assert(s.drop_last()[i] == s[i]);
                }
            }
        }
    }
}

impl<T: BTreeKey> BTree<T> {
    /// Where a key would go in this node: the number of elements with a
    /// smaller key, or the position of an element with the same key.
    pub closed spec fn position_ok(&self, idx: int, k: int) -> bool {
        ||| (idx < self.elements.len() && self.elements@[idx].key() == k)
        ||| ((forall|i: int| 0 <= i < idx ==> (#[trigger] self.elements@[i]).key() < k) && (forall|
            i: int,
        |
            idx <= i < self.elements.len() ==> (#[trigger] self.elements@[i]).key() > k))
    }

    /// If no element of the node has key `k`, the key can only be found in the
    /// child where it would go.
    proof fn lemma_descend(&self, idx: int, k: int)
        requires
            self.wf(),
            0 <= idx <= self.elements.len(),
            forall|i: int| 0 <= i < idx ==> (#[trigger] self.elements@[i]).key() < k,
            forall|i: int| idx <= i < self.elements.len() ==> (#[trigger] self.elements@[i]).key() > k,
        ensures
            self@.count(k) > 0 <==> (idx < self.pointers.len() && self.pointers@[idx].items().count(k)
                > 0),
    {
        let e = self.elements@;
        let p = self.pointers@;
        lemma_keys_count(e, k);
        Self::lemma_forest_count(p, k);
        if Self::forest_items(p).count(k) > 0 {
            let j = choose|j: int| 0 <= j < p.len() && (#[trigger] p[j]).items().count(k) > 0;
            if j < idx {
                assert(all_le(p[j].items(), e[j].key()));
            } else if j > idx {
                assert(all_ge(p[j].items(), e[j - 1].key()));
            }
        }
    }

    pub fn new() -> (t: Self)
        ensures
            t.wf(),
            t@ =~= Multiset::empty(),
            t.height() == 0,
            t.elements@.len() == 0,
            t.pointers@.len() == 0,
            t.shape() =~= (Shape { elements: Seq::empty(), children: Seq::empty() }),
    {
        let t = Self { elements: Vec::new(), pointers: Vec::new() };
        assert(Self::forest_items(t.pointers@) == Multiset::<int>::empty());
        assert(keys_of(t.elements@) == Multiset::<int>::empty());
        t
    }

    fn _len(&self) -> (l: usize)
        ensures
            l == self.elements.len(),
    {
        self.elements.len()
    }

    /// Looks `element` up; returns the stored element with the same key.
    pub fn find(&self, element: T) -> (r: Option<&T>)
        requires
            self.wf(),
        ensures
            r is Some <==> self@.count(element.key()) > 0,
            r matches Some(v) ==> v.key() == element.key() && holds(self.shape(), *v),
        decreases self,
    {
        let len = self._len();
        if len == 0 {
            assert(self.pointers@ =~= Seq::<BTree<T>>::empty());
            assert(self.elements@ =~= Seq::<T>::empty());
            assert(Self::forest_items(self.pointers@) == Multiset::<int>::empty());
            assert(keys_of(self.elements@) == Multiset::<int>::empty());
            return None;
        }
        let idx = self.find_index(&element);
        if idx < len {
            let v = &self.elements[idx];
            if v.key_eq(&element) {
                proof {
                    lemma_keys_count(self.elements@, element.key());
                    assert(self.shape().elements[idx as int] == *v);
                    assert(self.shape().elements.contains(*v));
                }
                return Some(v);
            }
        }
        proof {
            self.lemma_descend(idx as int, element.key());
        }
        if idx < self.pointers.len() {
            proof {
                assert(Self::children_wf(self.pointers@));
                assert(self.pointers@[idx as int].wf());
            }
            let r = self.pointers[idx].find(element);
            proof {
                Self::lemma_forest_shape(self.pointers@);
                if let Some(v) = r {
                    assert(self.shape().children[idx as int] == self.pointers@[idx as int].shape());
                    assert(holds(self.shape().children[idx as int], *v));
                }
            }
            r
        } else {
            None
        }
    }

    /// Binary search for `element` among the elements of this node.
    fn find_index(&self, element: &T) -> (idx: usize)
        requires
            sorted(self.elements@),
            self.elements.len() <= ELEMENTS_LEN,
        ensures
            idx <= self.elements.len(),
            self.position_ok(idx as int, element.key()),
            idx == search(self.elements@, *element, 0, self.elements.len() as int),
    {
        let len = self._len();
        if len == 0 {
            return 0;
        }
        let mut lo: usize = 0;
        let mut hi: usize = len;
        while lo < hi
            invariant
                lo <= hi <= len,
                len == self.elements.len(),
                len <= ELEMENTS_LEN,
                sorted(self.elements@),
                forall|i: int| 0 <= i < lo ==> (#[trigger] self.elements@[i]).key() < element.key(),
                forall|i: int| hi <= i < len ==> (#[trigger] self.elements@[i]).key() > element.key(),
                search(self.elements@, *element, lo as int, hi as int) == search(
                    self.elements@,
                    *element,
                    0,
                    len as int,
                ),
            decreases hi - lo,
        {
            let mid = (lo + hi) / 2;
            let v = &self.elements[mid];
            if v.key_eq(element) {
                return mid;
            }
            if v.key_lt(element) {
                lo = mid + 1;
            } else {
                hi = mid;
            }
        }
        lo
    }

    fn _is_leaf_full(&self) -> (r: bool)
        ensures
            r == (self.elements.len() == ELEMENTS_LEN),
    {
        self.elements.len() == ELEMENTS_LEN
    }
}

/// Keys of a sequence, split where it is cut.
proof fn lemma_keys_split<T: BTreeKey>(s: Seq<T>, i: int)
    requires
        0 <= i <= s.len(),
    ensures
        keys_of(s) =~= keys_of(s.take(i)).add(keys_of(s.skip(i))),
{
    assert(s =~= s.take(i) + s.skip(i));
    lemma_keys_concat(s.take(i), s.skip(i));
}

proof fn lemma_keys_single<T: BTreeKey>(x: T)
    ensures
        keys_of(seq![x]) =~= Multiset::<int>::empty().insert(x.key()),
{
    assert(seq![x].drop_last() =~= Seq::<T>::empty());
    assert(keys_of(Seq::<T>::empty()) == Multiset::<int>::empty());
}

/// An upper bound on every element carries over to the multiset of keys.
proof fn lemma_keys_le<T: BTreeKey>(s: Seq<T>, hi: int)
    requires
        forall|i: int| 0 <= i < s.len() ==> (#[trigger] s[i]).key() <= hi,
    ensures
        all_le(keys_of(s), hi),
{
    assert forall|x: int| #[trigger] keys_of(s).count(x) > 0 implies x <= hi by {
        lemma_keys_count(s, x);
    }
}

/// A lower bound on every element carries over to the multiset of keys.
proof fn lemma_keys_ge<T: BTreeKey>(s: Seq<T>, lo: int)
    requires
        forall|i: int| 0 <= i < s.len() ==> lo <= (#[trigger] s[i]).key(),
    ensures
        all_ge(keys_of(s), lo),
{
    assert forall|x: int| #[trigger] keys_of(s).count(x) > 0 implies lo <= x by {
        lemma_keys_count(s, x);
    }
}

impl<T: BTreeKey> BTree<T> {
    proof fn lemma_forest_split(s: Seq<BTree<T>>, i: int)
        requires
            0 <= i <= s.len(),
        ensures
            Self::forest_items(s) =~= Self::forest_items(s.take(i)).add(
                Self::forest_items(s.skip(i)),
            ),
    {
        assert(s =~= s.take(i) + s.skip(i));
        Self::lemma_forest_concat(s.take(i), s.skip(i));
    }

    /// An upper bound on every subtree carries over to the whole sequence.
    proof fn lemma_forest_le(s: Seq<BTree<T>>, hi: int)
        requires
            forall|i: int| 0 <= i < s.len() ==> all_le(#[trigger] s[i].items(), hi),
        ensures
            all_le(Self::forest_items(s), hi),
    {
        assert forall|x: int| #[trigger] Self::forest_items(s).count(x) > 0 implies x <= hi by {
            Self::lemma_forest_count(s, x);
            let i = choose|i: int| 0 <= i < s.len() && (#[trigger] s[i]).items().count(x) > 0;
            assert(all_le(s[i].items(), hi));
        }
    }

    /// A lower bound on every subtree carries over to the whole sequence.
    proof fn lemma_forest_ge(s: Seq<BTree<T>>, lo: int)
        requires
            forall|i: int| 0 <= i < s.len() ==> all_ge(#[trigger] s[i].items(), lo),
        ensures
            all_ge(Self::forest_items(s), lo),
    {
        assert forall|x: int| #[trigger] Self::forest_items(s).count(x) > 0 implies lo <= x by {
            Self::lemma_forest_count(s, x);
            let i = choose|i: int| 0 <= i < s.len() && (#[trigger] s[i]).items().count(x) > 0;
            assert(all_ge(s[i].items(), lo));
        }
    }

    /// A key of `c` plus `k`, where `c` is what child `idx` holds, lies between
    /// the elements around that child.
    proof fn lemma_from_child(e: Seq<T>, p: Seq<BTree<T>>, idx: int, c: Multiset<int>, k: int, x: int)
        requires
            p.len() == e.len() + 1,
            0 <= idx < p.len(),
            Self::children_bounded(e, p),
            idx > 0 ==> e[idx - 1].key() <= k,
            idx < e.len() ==> k <= e[idx].key(),
            c =~= p[idx].items().insert(k),
            c.count(x) > 0,
        ensures
            idx > 0 ==> e[idx - 1].key() <= x,
            idx < e.len() ==> x <= e[idx].key(),
    {
        if x != k {
            assert(p[idx].items().count(x) > 0);
            if idx > 0 {
                assert(all_ge(p[idx].items(), e[idx - 1].key()));
            }
            if idx < e.len() {
                assert(all_le(p[idx].items(), e[idx].key()));
            }
        }
    }

    /// Putting the two halves of a split child, and the median between them,
    /// in the place of that child keeps the node in order, and the node then
    /// holds what it held plus the key `k` that the child took in.
    proof fn lemma_insert_overflow(
        e: Seq<T>,
        p: Seq<BTree<T>>,
        idx: int,
        m: T,
        l: BTree<T>,
        r: BTree<T>,
        k: int,
        h: nat,
    )
        requires
            p.len() == e.len() + 1,
            0 <= idx < p.len(),
            sorted(e),
            Self::children_bounded(e, p),
            Self::children_height(p, h),
            Self::children_wf(p),
            idx > 0 ==> e[idx - 1].key() <= k,
            idx < e.len() ==> k <= e[idx].key(),
            l.wf(),
            r.wf(),
            l.elements.len() >= MIDLE,
            r.elements.len() >= MIDLE,
            l.height() == h,
            r.height() == h,
            all_le(l.items(), m.key()),
            all_ge(r.items(), m.key()),
            l.items().add(r.items()).insert(m.key()) =~= p[idx].items().insert(k),
        ensures
            ({
                let e2 = e.insert(idx, m);
                let p2 = p.update(idx, l).insert(idx + 1, r);
                &&& sorted(e2)
                &&& Self::children_bounded(e2, p2)
                &&& Self::children_height(p2, h)
                &&& Self::children_wf(p2)
                &&& keys_of(e2).add(Self::forest_items(p2)) =~= keys_of(e).add(
                    Self::forest_items(p),
                ).insert(k)
            }),
    {
        let e2 = e.insert(idx, m);
        let p2 = p.update(idx, l).insert(idx + 1, r);
        Self::lemma_from_child(e, p, idx, l.items().add(r.items()).insert(m.key()), k, m.key());
        lemma_insert_element(e, idx, m);
        Self::lemma_overflow_children(e, p, idx, m, l, r, k, h);
        Self::lemma_overflow_forest(p, idx, l, r, m.key(), k);
        assert forall|x: int|
            #[trigger] keys_of(e2).add(Self::forest_items(p2)).count(x) == keys_of(e).add(
                Self::forest_items(p),
            ).insert(k).count(x) by {
            assert(Self::forest_items(p2).insert(m.key()).count(x) == Self::forest_items(p).insert(
                k,
            ).count(x));
        }
        assert(keys_of(e2).add(Self::forest_items(p2)) =~= keys_of(e).add(Self::forest_items(p)).insert(k));
    }

    /// The subtrees of a node that took in the halves of a split child are in
    /// order around the elements, with the median put between the halves.
    proof fn lemma_overflow_children(
        e: Seq<T>,
        p: Seq<BTree<T>>,
        idx: int,
        m: T,
        l: BTree<T>,
        r: BTree<T>,
        k: int,
        h: nat,
    )
        requires
            p.len() == e.len() + 1,
            0 <= idx < p.len(),
            Self::children_bounded(e, p),
            Self::children_height(p, h),
            Self::children_wf(p),
            idx > 0 ==> e[idx - 1].key() <= k,
            idx < e.len() ==> k <= e[idx].key(),
            l.wf(),
            r.wf(),
            l.elements.len() >= MIDLE,
            r.elements.len() >= MIDLE,
            l.height() == h,
            r.height() == h,
            all_le(l.items(), m.key()),
            all_ge(r.items(), m.key()),
            l.items().add(r.items()).insert(m.key()) =~= p[idx].items().insert(k),
        ensures
            ({
                let e2 = e.insert(idx, m);
                let p2 = p.update(idx, l).insert(idx + 1, r);
                &&& Self::children_bounded(e2, p2)
                &&& Self::children_height(p2, h)
                &&& Self::children_wf(p2)
            }),
    {
        let e2 = e.insert(idx, m);
        let p2 = p.update(idx, l).insert(idx + 1, r);
        assert forall|x: int| #[trigger] l.items().count(x) > 0 implies (idx > 0 ==> e[idx - 1].key()
            <= x) && (idx < e.len() ==> x <= e[idx].key()) by {
            Self::lemma_from_child(e, p, idx, l.items().add(r.items()).insert(m.key()), k, x);
        }
        assert forall|x: int| #[trigger] r.items().count(x) > 0 implies (idx > 0 ==> e[idx - 1].key()
            <= x) && (idx < e.len() ==> x <= e[idx].key()) by {
            Self::lemma_from_child(e, p, idx, l.items().add(r.items()).insert(m.key()), k, x);
        }
        // bounds of the subtrees
        assert forall|j: int| 0 < j < p2.len() && j - 1 < e2.len() implies all_ge(
            #[trigger] p2[j].items(),
            e2[j - 1].key(),
        ) by {
            if j < idx {
                assert(all_ge(p[j].items(), e[j - 1].key()));
            } else if j == idx {
                assert forall|x: int| #[trigger] l.items().count(x) > 0 implies x >= e2[j - 1].key() by {
                }
            } else if j == idx + 1 {
            } else {
                assert(p2[j] == p[j - 1]);
                assert(all_ge(p[j - 1].items(), e[j - 2].key()));
            }
        }
        assert forall|j: int| 0 <= j < p2.len() && j < e2.len() implies all_le(
            #[trigger] p2[j].items(),
            e2[j].key(),
        ) by {
            if j < idx {
                assert(all_le(p[j].items(), e[j].key()));
            } else if j == idx {
            } else if j == idx + 1 {
                assert forall|x: int| #[trigger] r.items().count(x) > 0 implies x <= e2[j].key() by {
                }
            } else {
                assert(p2[j] == p[j - 1]);
                assert(all_le(p[j - 1].items(), e[j - 1].key()));
            }
        }
        assert forall|j: int| 0 <= j < p2.len() implies (#[trigger] p2[j]).height() == h && p2[j].wf()
            && p2[j].elements.len() >= MIDLE by {
            if j < idx {
                assert(p2[j] == p[j]);
            } else if j > idx + 1 {
                assert(p2[j] == p[j - 1]);
            }
        }
    }

    /// The subtrees of a node that took in the halves of a split child, with
    /// the median, hold what they held with `k` added.
    proof fn lemma_overflow_forest(p: Seq<BTree<T>>, idx: int, l: BTree<T>, r: BTree<T>, m: int, k: int)
        requires
            0 <= idx < p.len(),
            l.items().add(r.items()).insert(m) =~= p[idx].items().insert(k),
        ensures
            Self::forest_items(p.update(idx, l).insert(idx + 1, r)).insert(m) =~= Self::forest_items(
                p,
            ).insert(k),
    {
        let p2 = p.update(idx, l).insert(idx + 1, r);
        let c = p[idx];
        Self::lemma_forest_split(p, idx);
        Self::lemma_forest_split(p.skip(idx), 1);
        assert(p.skip(idx).take(1) =~= seq![c]);
        assert(p.skip(idx).skip(1) =~= p.skip(idx + 1));
        Self::lemma_forest_single(c);
        assert(p2 =~= p.take(idx) + seq![l] + seq![r] + p.skip(idx + 1));
        Self::lemma_forest_concat(p.take(idx) + seq![l] + seq![r], p.skip(idx + 1));
        Self::lemma_forest_concat(p.take(idx) + seq![l], seq![r]);
        Self::lemma_forest_concat(p.take(idx), seq![l]);
        Self::lemma_forest_single(l);
        Self::lemma_forest_single(r);
        let fa = Self::forest_items(p.take(idx));
        let fb = Self::forest_items(p.skip(idx + 1));
        assert(Self::forest_items(p) =~= fa.add(c.items()).add(fb));
        assert(Self::forest_items(p2) =~= fa.add(l.items()).add(r.items()).add(fb));
        assert forall|x: int|
            #[trigger] Self::forest_items(p2).insert(m).count(x) == Self::forest_items(p).insert(k).count(
                x,
            ) by {
            assert(l.items().add(r.items()).insert(m).count(x) == c.items().insert(k).count(x));
        }
    }
}

impl<T: BTreeKey> OverFlow<T> {
    fn new(element: T, left: BTree<T>, right: BTree<T>) -> (o: Self)
        ensures
            o.element == element,
            o.left == left,
            o.right == right,
    {
        Self { element, left, right }
    }

    /// Both halves are well formed B-trees of height `h`, all of `left` is at
    /// most the median and all of `right` at least the median.
    spec fn ok(&self, h: nat) -> bool {
        &&& self.left.wf()
        &&& self.right.wf()
        &&& self.left.elements.len() >= MIDLE
        &&& self.right.elements.len() >= MIDLE
        &&& self.left.height() == h
        &&& self.right.height() == h
        &&& all_le(self.left.items(), self.element.key())
        &&& all_ge(self.right.items(), self.element.key())
    }

    /// The keys held by both halves and the median.
    spec fn items(&self) -> Multiset<int> {
        self.left.items().add(self.right.items()).insert(self.element.key())
    }
}

/// The subtrees that go to the left half when a full node splits.
spec fn left_ptrs<T>(p: Seq<BTree<T>>) -> Seq<BTree<T>> {
    if p.len() == 0 {
        p
    } else {
        p.take(MIDLE + 1)
    }
}

/// The subtrees that go to the right half when a full node splits.
spec fn right_ptrs<T>(p: Seq<BTree<T>>) -> Seq<BTree<T>> {
    if p.len() == 0 {
        p
    } else {
        p.skip(MIDLE + 1)
    }
}

impl<T: BTreeKey> BTree<T> {
    /// The two halves of a full node are in order, lie on either side of the
    /// median, and together with it hold what the node held.
    proof fn lemma_split(e: Seq<T>, p: Seq<BTree<T>>, h: nat)
        requires
            e.len() == ELEMENTS_LEN,
            p.len() == 0 || p.len() == POINTERS_LEN,
            sorted(e),
            Self::children_bounded(e, p),
            Self::children_height(p, h),
            Self::children_wf(p),
        ensures
            ({
                let el = e.take(MIDLE as int);
                let er = e.skip(MIDLE + 1);
                let pl = left_ptrs(p);
                let pr = right_ptrs(p);
                let m = e[MIDLE as int].key();
                &&& sorted(el)
                &&& sorted(er)
                &&& Self::children_bounded(el, pl)
                &&& Self::children_bounded(er, pr)
                &&& Self::children_height(pl, h)
                &&& Self::children_height(pr, h)
                &&& Self::children_wf(pl)
                &&& Self::children_wf(pr)
                &&& all_le(keys_of(el).add(Self::forest_items(pl)), m)
                &&& all_ge(keys_of(er).add(Self::forest_items(pr)), m)
                &&& keys_of(el).add(Self::forest_items(pl)).add(
                    keys_of(er).add(Self::forest_items(pr)),
                ).insert(m) =~= keys_of(e).add(Self::forest_items(p))
            }),
    {
        let el = e.take(MIDLE as int);
        let er = e.skip(MIDLE + 1);
        let pl = left_ptrs(p);
        let pr = right_ptrs(p);
        let m = e[MIDLE as int].key();
        assert forall|j: int| 0 <= j < pr.len() implies (#[trigger] pr[j]).wf() && pr[j].height() == h
            && pr[j].elements.len() >= MIDLE by {
            assert(pr[j] == p[j + MIDLE + 1]);
        }
        assert forall|j: int| 0 < j < pr.len() && j - 1 < er.len() implies all_ge(
            #[trigger] pr[j].items(),
            er[j - 1].key(),
        ) by {
            assert(pr[j] == p[j + MIDLE + 1]);
            assert(all_ge(p[j + MIDLE + 1].items(), e[j + MIDLE].key()));
        }
        assert forall|j: int| 0 <= j < pr.len() && j < er.len() implies all_le(
            #[trigger] pr[j].items(),
            er[j].key(),
        ) by {
            assert(pr[j] == p[j + MIDLE + 1]);
            assert(all_le(p[j + MIDLE + 1].items(), e[j + MIDLE + 1].key()));
        }
        assert(Self::children_bounded(er, pr));
        assert forall|j: int| 0 <= j < pl.len() implies all_le(#[trigger] pl[j].items(), m) by {
            assert(pl[j] == p[j]);
            assert(all_le(p[j].items(), e[j].key()));
        }
        assert forall|j: int| 0 <= j < pr.len() implies all_ge(#[trigger] pr[j].items(), m) by {
            assert(pr[j] == p[j + MIDLE + 1]);
            assert(all_ge(p[j + MIDLE + 1].items(), e[j + MIDLE].key()));
        }
        Self::lemma_forest_le(pl, m);
        Self::lemma_forest_ge(pr, m);
        lemma_keys_le(el, m);
        lemma_keys_ge(er, m);
        // what the halves hold
        assert(e =~= el + seq![e[MIDLE as int]] + er);
        lemma_keys_concat(el + seq![e[MIDLE as int]], er);
        lemma_keys_concat(el, seq![e[MIDLE as int]]);
        lemma_keys_single(e[MIDLE as int]);
        if p.len() > 0 {
            Self::lemma_forest_split(p, MIDLE + 1);
        } else {
            assert(Self::forest_items(p) == Multiset::<int>::empty());
        }
    }
}

impl<T: BTreeKey> BTree<T> {
    /// Splits a full node around its median element; the node is left empty.
    fn _split_node(&mut self) -> (o: OverFlow<T>)
        requires
            old(self).elements.len() == ELEMENTS_LEN,
            old(self).pointers.len() == 0 || old(self).pointers.len() == POINTERS_LEN,
        ensures
            o.element == old(self).elements@[MIDLE as int],
            o.left.elements@ == old(self).elements@.take(MIDLE as int),
            o.right.elements@ == old(self).elements@.skip(MIDLE + 1),
            o.left.pointers@ == left_ptrs(old(self).pointers@),
            o.right.pointers@ == right_ptrs(old(self).pointers@),
            final(self).elements.len() == 0,
            final(self).pointers.len() == 0,
    {
        let right_elements = self.elements.split_off(MIDLE + 1);
        let median = self.elements.pop().unwrap();
        let mut left_elements: Vec<T> = Vec::new();
        std::mem::swap(&mut left_elements, &mut self.elements);
        let mut right_pointers: Vec<BTree<T>> = Vec::new();
        if self.pointers.len() > 0 {
            right_pointers = self.pointers.split_off(MIDLE + 1);
        }
        let mut left_pointers: Vec<BTree<T>> = Vec::new();
        std::mem::swap(&mut left_pointers, &mut self.pointers);
        let left = BTree { elements: left_elements, pointers: left_pointers };
        let right = BTree { elements: right_elements, pointers: right_pointers };
        OverFlow::new(median, left, right)
    }

    /// Puts the median of a split child at `i` and its two halves in the place
    /// of that child. The node must not be full.
    fn _insert_overflow_at_index(&mut self, i: usize, extra: OverFlow<T>)
        requires
            i <= old(self).elements.len() < ELEMENTS_LEN,
            i < old(self).pointers.len(),
        ensures
            final(self).elements@ == old(self).elements@.insert(i as int, extra.element),
            final(self).pointers@ == old(self).pointers@.update(i as int, extra.left).insert(
                i + 1,
                extra.right,
            ),
    {
        let OverFlow { element, left, right } = extra;
        self.elements.insert(i, element);
        self.pointers.set(i, left);
        self.pointers.insert(i + 1, right);
    }
}

/// Putting `x` where it belongs keeps the elements in order and adds its key.
proof fn lemma_insert_element<T: BTreeKey>(e: Seq<T>, idx: int, x: T)
    requires
        0 <= idx <= e.len(),
        sorted(e),
        idx > 0 ==> e[idx - 1].key() <= x.key(),
        idx < e.len() ==> x.key() <= e[idx].key(),
    ensures
        sorted(e.insert(idx, x)),
        keys_of(e.insert(idx, x)) =~= keys_of(e).insert(x.key()),
{
    let e2 = e.insert(idx, x);
    assert forall|i: int, j: int| 0 <= i <= j < e2.len() implies e2[i].key() <= e2[j].key() by {
        if j < idx {
        } else if j == idx {
            if i < idx {
                assert(e[i].key() <= e[idx - 1].key());
            }
        } else if i < idx {
            assert(e[i].key() <= e[j - 1].key());
        } else if i == idx {
            assert(e[idx].key() <= e[j - 1].key());
        } else {
        }
    }
    lemma_keys_split(e, idx);
    assert(e2 =~= e.take(idx) + seq![x] + e.skip(idx));
    lemma_keys_concat(e.take(idx) + seq![x], e.skip(idx));
    lemma_keys_concat(e.take(idx), seq![x]);
    lemma_keys_single(x);
}

impl<T: BTreeKey> BTree<T> {
    /// A child that took in key `k`, where `k` belongs, keeps the node in order.
    proof fn lemma_replace_child(e: Seq<T>, p: Seq<BTree<T>>, idx: int, c: BTree<T>, k: int, h: nat)
        requires
            p.len() == e.len() + 1,
            0 <= idx < p.len(),
            Self::children_bounded(e, p),
            Self::children_height(p, h),
            Self::children_wf(p),
            idx > 0 ==> e[idx - 1].key() <= k,
            idx < e.len() ==> k <= e[idx].key(),
            c.wf(),
            c.elements.len() >= MIDLE,
            c.height() == h,
            c.items() =~= p[idx].items().insert(k),
        ensures
            Self::children_bounded(e, p.update(idx, c)),
            Self::children_height(p.update(idx, c), h),
            Self::children_wf(p.update(idx, c)),
            Self::forest_items(p.update(idx, c)) =~= Self::forest_items(p).insert(k),
    {
        let p2 = p.update(idx, c);
        assert forall|x: int| #[trigger] c.items().count(x) > 0 implies (idx > 0 ==> e[idx - 1].key()
            <= x) && (idx < e.len() ==> x <= e[idx].key()) by {
            Self::lemma_from_child(e, p, idx, c.items(), k, x);
        }
        assert forall|j: int| 0 < j < p2.len() && j - 1 < e.len() implies all_ge(
            #[trigger] p2[j].items(),
            e[j - 1].key(),
        ) by {
            if j != idx {
                assert(all_ge(p[j].items(), e[j - 1].key()));
            }
        }
        assert forall|j: int| 0 <= j < p2.len() && j < e.len() implies all_le(
            #[trigger] p2[j].items(),
            e[j].key(),
        ) by {
            if j != idx {
                assert(all_le(p[j].items(), e[j].key()));
            }
        }
        assert forall|j: int| 0 <= j < p2.len() implies (#[trigger] p2[j]).height() == h && p2[j].wf()
            && p2[j].elements.len() >= MIDLE by {
            if j != idx {
                assert(p2[j] == p[j]);
            }
        }
        Self::lemma_forest_split(p, idx);
        Self::lemma_forest_split(p.skip(idx), 1);
        assert(p.skip(idx).take(1) =~= seq![p[idx]]);
        assert(p.skip(idx).skip(1) =~= p.skip(idx + 1));
        Self::lemma_forest_single(p[idx]);
        Self::lemma_forest_split(p2, idx);
        Self::lemma_forest_split(p2.skip(idx), 1);
        assert(p2.skip(idx).take(1) =~= seq![c]);
        assert(p2.skip(idx).skip(1) =~= p.skip(idx + 1));
        assert(p2.take(idx) =~= p.take(idx));
        Self::lemma_forest_single(c);
    }

    /// A full inner node whose child `idx` split: the node splits too, and the
    /// half that held that child takes in the child's halves and median. The
    /// two halves of the node are then well formed, one level higher than the
    /// child, on either side of the node's median, and hold with it what the
    /// node held plus the key `k` that the child took in.
    proof fn lemma_absorb_in_half(
        e: Seq<T>,
        p: Seq<BTree<T>>,
        h: nat,
        idx: int,
        k: int,
        m: T,
        l: BTree<T>,
        r: BTree<T>,
        o: OverFlow<T>,
    )
        requires
            e.len() == ELEMENTS_LEN,
            p.len() == POINTERS_LEN,
            sorted(e),
            Self::children_bounded(e, p),
            Self::children_height(p, h),
            Self::children_wf(p),
            0 <= idx < p.len(),
            idx > 0 ==> e[idx - 1].key() <= k,
            idx < e.len() ==> k <= e[idx].key(),
            l.wf(),
            r.wf(),
            l.elements.len() >= MIDLE,
            r.elements.len() >= MIDLE,
            l.height() == h,
            r.height() == h,
            all_le(l.items(), m.key()),
            all_ge(r.items(), m.key()),
            l.items().add(r.items()).insert(m.key()) =~= p[idx].items().insert(k),
            o.element == e[MIDLE as int],
            idx <= MIDLE ==> {
                &&& o.left.elements@ == e.take(MIDLE as int).insert(idx, m)
                &&& o.left.pointers@ == p.take(MIDLE + 1).update(idx, l).insert(idx + 1, r)
                &&& o.right.elements@ == e.skip(MIDLE + 1)
                &&& o.right.pointers@ == p.skip(MIDLE + 1)
            },
            idx > MIDLE ==> {
                &&& o.left.elements@ == e.take(MIDLE as int)
                &&& o.left.pointers@ == p.take(MIDLE + 1)
                &&& o.right.elements@ == e.skip(MIDLE + 1).insert(idx - (MIDLE + 1), m)
                &&& o.right.pointers@ == p.skip(MIDLE + 1).update(idx - (MIDLE + 1), l).insert(
                    idx - MIDLE,
                    r,
                )
            },
        ensures
            o.ok(h + 1),
            o.items() =~= keys_of(e).add(Self::forest_items(p)).insert(k),
    {
        Self::lemma_split(e, p, h);
        let el = e.take(MIDLE as int);
        let er = e.skip(MIDLE + 1);
        let pl = p.take(MIDLE + 1);
        let pr = p.skip(MIDLE + 1);
        if idx <= MIDLE {
            assert(pl[idx] == p[idx]);
            Self::lemma_insert_overflow(el, pl, idx, m, l, r, k, h);
            assert(o.left.pointers@[0].height() == h);
            assert(o.right.pointers@[0].height() == h);
            assert(k <= e[MIDLE as int].key());
        } else {
            let j = idx - (MIDLE + 1);
            assert(pr[j] == p[idx]);
            assert(e[idx - 1].key() <= k);
            Self::lemma_insert_overflow(er, pr, j, m, l, r, k, h);
            assert(o.left.pointers@[0].height() == h);
            assert(o.right.pointers@[0].height() == h);
            assert(e[MIDLE as int].key() <= e[idx - 1].key());
        }
    }

    /// A child took `x` in without splitting.
    proof fn lemma_shape_child_fits(n: BTree<T>, idx: int, x: T, new: BTree<T>)
        requires
            idx == search(n.elements@, x, 0, n.elements@.len() as int),
            0 <= idx < n.pointers@.len(),
            insert_shape(n.pointers@[idx].shape(), x) == Inserted::Fits(new.pointers@[idx].shape()),
            new.elements@ == n.elements@,
            new.pointers@ == n.pointers@.update(idx, new.pointers@[idx]),
        ensures
            insert_shape(n.shape(), x) == Inserted::Fits(new.shape()),
    {
        reveal(insert_shape);
        Self::lemma_forest_shape(n.pointers@);
        Self::lemma_shapes_update(n.pointers@, idx, new.pointers@[idx]);
        assert(new.shape() =~= Shape {
            elements: n.elements@,
            children: Self::forest_shape(n.pointers@).update(idx, new.pointers@[idx].shape()),
        });
    }

    /// A child split and its halves and median fit into the node.
    proof fn lemma_shape_child_absorbs(
        n: BTree<T>,
        idx: int,
        x: T,
        m: T,
        l: BTree<T>,
        r: BTree<T>,
        new: BTree<T>,
    )
        requires
            idx == search(n.elements@, x, 0, n.elements@.len() as int),
            0 <= idx < n.pointers@.len(),
            n.elements@.len() != ELEMENTS_LEN,
            insert_shape(n.pointers@[idx].shape(), x) == Inserted::Splits(m, l.shape(), r.shape()),
            new.elements@ == n.elements@.insert(idx, m),
            new.pointers@ == n.pointers@.update(idx, l).insert(idx + 1, r),
        ensures
            insert_shape(n.shape(), x) == Inserted::Fits(new.shape()),
    {
        reveal(insert_shape);
        Self::lemma_forest_shape(n.pointers@);
        Self::lemma_shapes_absorb(n.pointers@, idx, l, r);
        assert(new.shape() =~= Shape {
            elements: n.elements@.insert(idx, m),
            children: Self::forest_shape(n.pointers@).update(idx, l.shape()).insert(idx + 1, r.shape()),
        });
    }

    /// A child split and the full node splits too, the half that held the
    /// child taking in its halves and median.
    proof fn lemma_shape_inner_split(
        n: BTree<T>,
        idx: int,
        x: T,
        m: T,
        l: BTree<T>,
        r: BTree<T>,
        o: OverFlow<T>,
    )
        requires
            idx == search(n.elements@, x, 0, n.elements@.len() as int),
            0 <= idx < n.pointers@.len(),
            n.elements@.len() == ELEMENTS_LEN,
            n.pointers@.len() == POINTERS_LEN,
            insert_shape(n.pointers@[idx].shape(), x) == Inserted::Splits(m, l.shape(), r.shape()),
            o.element == n.elements@[MIDLE as int],
            idx <= MIDLE ==> {
                &&& o.left.elements@ == n.elements@.take(MIDLE as int).insert(idx, m)
                &&& o.left.pointers@ == n.pointers@.take(MIDLE + 1).update(idx, l).insert(idx + 1, r)
                &&& o.right.elements@ == n.elements@.skip(MIDLE + 1)
                &&& o.right.pointers@ == n.pointers@.skip(MIDLE + 1)
            },
            idx > MIDLE ==> {
                &&& o.left.elements@ == n.elements@.take(MIDLE as int)
                &&& o.left.pointers@ == n.pointers@.take(MIDLE + 1)
                &&& o.right.elements@ == n.elements@.skip(MIDLE + 1).insert(idx - (MIDLE + 1), m)
                &&& o.right.pointers@ == n.pointers@.skip(MIDLE + 1).update(idx - (MIDLE + 1), l).insert(
                    idx - MIDLE,
                    r,
                )
            },
        ensures
            insert_shape(n.shape(), x) == Inserted::Splits(o.element, o.left.shape(), o.right.shape()),
    {
        reveal(insert_shape);
        let p = n.pointers@;
        let cs = Self::forest_shape(p);
        Self::lemma_forest_shape(p);
        Self::lemma_shapes_cut(p, MIDLE + 1);
        if idx <= MIDLE {
            Self::lemma_shapes_absorb(p.take(MIDLE + 1), idx, l, r);
            assert(o.left.shape() =~= Shape {
                elements: n.elements@.take(MIDLE as int).insert(idx, m),
                children: cs.take(MIDLE + 1).update(idx, l.shape()).insert(idx + 1, r.shape()),
            });
            assert(o.right.shape() =~= Shape {
                elements: n.elements@.skip(MIDLE + 1),
                children: cs.skip(MIDLE + 1),
            });
        } else {
            let j = idx - (MIDLE + 1);
            Self::lemma_shapes_absorb(p.skip(MIDLE + 1), j, l, r);
            assert(o.right.shape() =~= Shape {
                elements: n.elements@.skip(MIDLE + 1).insert(j, m),
                children: cs.skip(MIDLE + 1).update(j, l.shape()).insert(j + 1, r.shape()),
            });
            assert(o.left.shape() =~= Shape {
                elements: n.elements@.take(MIDLE as int),
                children: cs.take(MIDLE + 1),
            });
        }
    }

    /// A full leaf splits, and `x` goes into the half on its side of the median.
    proof fn lemma_shape_leaf_split(n: BTree<T>, x: T, l0: BTree<T>, r0: BTree<T>, o: OverFlow<T>)
        requires
            search(n.elements@, x, 0, n.elements@.len() as int) >= n.pointers@.len(),
            n.pointers@.len() == 0,
            n.elements@.len() == ELEMENTS_LEN,
            o.element == n.elements@[MIDLE as int],
            l0.elements@ == n.elements@.take(MIDLE as int),
            r0.elements@ == n.elements@.skip(MIDLE + 1),
            l0.pointers@.len() == 0,
            r0.pointers@.len() == 0,
            x.key() < o.element.key() ==> insert_shape(l0.shape(), x) == Inserted::Fits(o.left.shape())
                && o.right == r0,
            x.key() >= o.element.key() ==> insert_shape(r0.shape(), x) == Inserted::Fits(o.right.shape())
                && o.left == l0,
        ensures
            insert_shape(n.shape(), x) == Inserted::Splits(o.element, o.left.shape(), o.right.shape()),
    {
        reveal(insert_shape);
        let cs = Self::forest_shape(n.pointers@);
        Self::lemma_forest_shape(n.pointers@);
        assert(cs =~= Seq::<Shape<T>>::empty());
        assert(Self::forest_shape(l0.pointers@) =~= Seq::<Shape<T>>::empty());
        assert(Self::forest_shape(r0.pointers@) =~= Seq::<Shape<T>>::empty());
        assert(l0.shape() =~= Shape { elements: n.elements@.take(MIDLE as int), children: cs });
        assert(r0.shape() =~= Shape { elements: n.elements@.skip(MIDLE + 1), children: cs });
    }

    /// A leaf with room takes `x` where the search ends.
    proof fn lemma_shape_leaf_fits(n: BTree<T>, idx: int, x: T, new: BTree<T>)
        requires
            idx == search(n.elements@, x, 0, n.elements@.len() as int),
            idx >= n.pointers@.len(),
            0 <= idx <= n.elements@.len(),
            n.elements@.len() != ELEMENTS_LEN,
            new.elements@ == n.elements@.insert(idx, x),
            new.pointers@ == n.pointers@,
        ensures
            insert_shape(n.shape(), x) == Inserted::Fits(new.shape()),
    {
        reveal(insert_shape);
        Self::lemma_forest_shape(n.pointers@);
        assert(new.shape() =~= Shape { elements: n.elements@.insert(idx, x), children: Self::forest_shape(n.pointers@) });
    }

    /// Inserts `element` below this node. When the node had to split, it is
    /// left empty and its two halves and median are handed back.
    fn _insert(&mut self, element: T) -> (r: Option<OverFlow<T>>)
        requires
            old(self).wf(),
        ensures
            match r {
                None => {
                    &&& final(self).wf()
                    &&& final(self)@ =~= old(self)@.insert(element.key())
                    &&& final(self).height() == old(self).height()
                    &&& final(self).elements.len() >= old(self).elements.len()
                    &&& insert_shape(old(self).shape(), element) == Inserted::Fits(final(self).shape())
                },
                Some(o) => {
                    &&& insert_shape(old(self).shape(), element) == Inserted::Splits(
                        o.element,
                        o.left.shape(),
                        o.right.shape(),
                    )
                    &&& o.ok(old(self).height())
                    &&& o.items() =~= old(self)@.insert(element.key())
                    &&& final(self).elements.len() == 0
                    &&& final(self).pointers.len() == 0
                },
            },
            old(self).elements.len() < ELEMENTS_LEN ==> r is None,
        decreases old(self).height(), old(self).elements.len(),
    {
        let ghost k = element.key();
        let ghost e = self.elements@;
        let ghost p = self.pointers@;
        let ghost h = self.height();
        let ghost x = element;
        let ghost n = *self;
        let idx = self.find_index(&element);
        proof {
            if idx > 0 {
                assert(e[idx - 1].key() <= k);
            }
        }
        if idx < self.pointers.len() {
            let ghost c = p[idx as int];
            proof {
                assert(Self::children_wf(p));
                assert(c.wf());
                assert(c.height() == h - 1);
                assert(c.elements.len() >= MIDLE);
            }
            let res = self.pointers[idx]._insert(element);
            match res {
                None => {
                    proof {
                        let c2 = self.pointers@[idx as int];
                        assert(self.pointers@ == p.update(idx as int, c2));
                        Self::lemma_replace_child(e, p, idx as int, c2, k, (h - 1) as nat);
                        assert(self.pointers@[0].height() == h - 1);
                        Self::lemma_shape_child_fits(n, idx as int, x, *self);
                    }
                    None
                },
                Some(extra) => {
                    let ghost ce = self.pointers@[idx as int];
                    proof {
                        assert(self.pointers@ == p.update(idx as int, ce));
                    }
                    if self._is_leaf_full() {
                        let mut n_extra = self._split_node();
                        if idx <= MIDLE {
                            n_extra.left._insert_overflow_at_index(idx, extra);
                            proof {
                                assert(n_extra.left.pointers@ =~= p.take(MIDLE + 1).update(
                                    idx as int,
                                    extra.left,
                                ).insert(idx + 1, extra.right));
                                assert(n_extra.right.pointers@ =~= p.skip(MIDLE + 1));
                            }
                        } else {
                            n_extra.right._insert_overflow_at_index(idx - (MIDLE + 1), extra);
                            proof {
                                let j = idx - (MIDLE + 1);
                                assert(n_extra.right.pointers@ =~= p.skip(MIDLE + 1).update(
                                    j,
                                    extra.left,
                                ).insert(j + 1, extra.right));
                                assert(n_extra.left.pointers@ =~= p.take(MIDLE + 1));
                            }
                        }
                        proof {
                            Self::lemma_shape_inner_split(
                                n,
                                idx as int,
                                x,
                                extra.element,
                                extra.left,
                                extra.right,
                                n_extra,
                            );
                            Self::lemma_absorb_in_half(
                                e,
                                p,
                                (h - 1) as nat,
                                idx as int,
                                k,
                                extra.element,
                                extra.left,
                                extra.right,
                                n_extra,
                            );
                        }
                        Some(n_extra)
                    } else {
                        self._insert_overflow_at_index(idx, extra);
                        proof {
                            assert(self.pointers@ =~= p.update(idx as int, extra.left).insert(
                                idx + 1,
                                extra.right,
                            ));
                            Self::lemma_insert_overflow(
                                e,
                                p,
                                idx as int,
                                extra.element,
                                extra.left,
                                extra.right,
                                k,
                                (h - 1) as nat,
                            );
                            assert(self.pointers@[0].height() == h - 1);
                            Self::lemma_shape_child_absorbs(
                                n,
                                idx as int,
                                x,
                                extra.element,
                                extra.left,
                                extra.right,
                                *self,
                            );
                        }
                        None
                    }
                },
            }
        } else {
            if self._is_leaf_full() {
                let mut extra = self._split_node();
                proof {
                    Self::lemma_split(e, p, 0);
                }
                let ghost l0 = extra.left;
                let ghost r0 = extra.right;
                if element.key_lt(&extra.element) {
                    extra.left._insert(element);
                } else {
                    extra.right._insert(element);
                }
                proof {
                    Self::lemma_shape_leaf_split(n, x, l0, r0, extra);
                }
                Some(extra)
            } else {
                self.elements.insert(idx, element);
                proof {
                    lemma_insert_element(e, idx as int, x);
                    Self::lemma_shape_leaf_fits(n, idx as int, x, *self);
                }
                None
            }
        }
    }
}

impl<T: BTreeKey> BTree<T> {
    /// Adds `element`; a key that is already present is added once more.
    /// When the root splits, the tree grows by one level.
    pub fn insert(&mut self, element: T)
        requires
            old(self).wf(),
        ensures
            final(self).wf(),
            final(self)@ =~= old(self)@.insert(element.key()),
            final(self).shape() == tree_insert(old(self).shape(), element),
            final(self).height() == old(self).height() || final(self).height() == old(self).height()
                + 1,
            final(self).height() == old(self).height() + 1 ==> old(self).elements@.len() == ELEMENTS_LEN
                && final(self).elements@.len() == 1,
    {
        let ghost x = element;
        let tmp = self._insert(element);
        if let Some(tmp) = tmp {
            let OverFlow { element, left, right } = tmp;
            let mut elements: Vec<T> = Vec::new();
            elements.push(element);
            let mut pointers: Vec<BTree<T>> = Vec::new();
            pointers.push(left);
            pointers.push(right);
            let mut btree = BTree { elements, pointers };
            proof {
                assert(btree.elements@ =~= seq![element]);
                assert(btree.pointers@ =~= seq![left] + seq![right]);
                lemma_keys_single(element);
                Self::lemma_forest_concat(seq![left], seq![right]);
                Self::lemma_forest_single(left);
                Self::lemma_forest_single(right);
                assert(btree.pointers@[0] == left);
                assert(btree.pointers@[1] == right);
                Self::lemma_forest_shape(btree.pointers@);
                assert(Self::forest_shape(btree.pointers@)[0] == left.shape());
                assert(Self::forest_shape(btree.pointers@)[1] == right.shape());
                assert(Self::forest_shape(btree.pointers@) =~= seq![left.shape(), right.shape()]);
                assert(btree.shape() =~= Shape {
                    elements: seq![element],
                    children: seq![left.shape(), right.shape()],
                });
            }
            std::mem::swap(self, &mut btree);
        }
    }
}

impl<T: BTreeKey> Default for BTree<T> {
    fn default() -> (t: Self)
        ensures
            t.wf(),
            t@ =~= Multiset::empty(),
            t.height() == 0,
    {
        Self::new()
    }
}

/// How element slot `i` of a node is written: the element, or `_` where the
/// slot is free, after a separator unless it is the first slot.
pub open spec fn slot_text<T: BTreeKey>(e: Seq<T>, i: int) -> Seq<char> {
    (if i > 0 {
        ", "@
    } else {
        Seq::empty()
    }) + (if i < e.len() {
        e[i].rendered()
    } else {
        seq!['_']
    })
}

/// The first `n` element slots of a node, written out.
pub open spec fn slots_text<T: BTreeKey>(e: Seq<T>, n: nat) -> Seq<char>
    decreases n,
{
    if n == 0 {
        Seq::empty()
    } else {
        slots_text(e, (n - 1) as nat) + slot_text(e, n - 1)
    }
}

/// The text of a node of layout `n` and all nodes below it, each line after
/// `indent`, children two spaces further in.
pub open spec fn pretty<T: BTreeKey>(n: Shape<T>, indent: Seq<char>) -> Seq<char>
    decreases n,
{
    indent + "BTreeNode {\n"@ + indent + "  elements: ["@ + slots_text(n.elements, ELEMENTS_LEN as nat)
        + "]\n"@ + children_text(n.children, indent) + indent + "}\n"@
}

/// The text of a sequence of children: a header with the index of each, then
/// the child two spaces further in.
pub open spec fn children_text<T: BTreeKey>(c: Seq<Shape<T>>, indent: Seq<char>) -> Seq<char>
    decreases c,
{
    if c.len() == 0 {
        Seq::empty()
    } else {
        children_text(c.drop_last(), indent) + indent + "  child["@ + decimal((c.len() - 1) as nat)
            + "]:\n"@ + pretty(c.last(), indent + "  "@)
    }
}

impl<T: BTreeKey> BTree<T> {
    /// Writes this node and all nodes below it, each line after `indent`.
    fn fmt_pretty_with_indent(&self, indent: &str, out: &mut String)
        ensures
            final(out)@ == old(out)@ + pretty(self.shape(), indent@),
        decreases self,
    {
        let ghost start = out@;
        push_str(out, indent);
        push_str(out, "BTreeNode {\n");
        push_str(out, indent);
        push_str(out, "  elements: [");
        let ghost head = out@;
        let mut i: usize = 0;
        while i < ELEMENTS_LEN
            invariant
                i <= ELEMENTS_LEN,
                out@ == head + slots_text(self.elements@, i as nat),
            decreases ELEMENTS_LEN - i,
        {
            let ghost before = out@;
            if i > 0 {
                push_str(out, ", ");
            }
            if i < self.elements.len() {
                self.elements[i].render(out);
            } else {
                push_char(out, '_');
            }
            proof {
                assert(out@ =~= before + slot_text(self.elements@, i as int));
            }
            i = i + 1;
        }
        push_str(out, "]\n");
        let mut child_indent = String::new();
        push_str(&mut child_indent, indent);
        push_str(&mut child_indent, "  ");
        let ghost body = out@;
        proof {
            Self::lemma_forest_shape(self.pointers@);
        }
        let mut j: usize = 0;
        while j < self.pointers.len()
            invariant
                j <= self.pointers.len(),
                child_indent@ == indent@ + "  "@,
                out@ == body + children_text(Self::forest_shape(self.pointers@).take(j as int), indent@),
                Self::forest_shape(self.pointers@).len() == self.pointers@.len(),
                forall|i: int|
                    0 <= i < self.pointers@.len() ==> #[trigger] Self::forest_shape(self.pointers@)[i]
                        == self.pointers@[i].shape(),
            decreases self.pointers.len() - j,
        {
            push_str(out, indent);
            push_str(out, "  child[");
            push_decimal(out, j as u64);
            push_str(out, "]:\n");
            self.pointers[j].fmt_pretty_with_indent(child_indent.as_str(), out);
            proof {
                let cs = Self::forest_shape(self.pointers@);
                assert(cs.take(j + 1).drop_last() =~= cs.take(j as int));
                assert(cs.take(j + 1).last() == self.pointers@[j as int].shape());
            }
            j = j + 1;
        }
        push_str(out, indent);
        push_str(out, "}\n");
        proof {
            let cs = Self::forest_shape(self.pointers@);
            assert(cs.take(self.pointers.len() as int) =~= cs);
        }
    }

    /// The whole tree written out, one node per block, children indented.
    pub fn to_string(&self) -> (s: String)
        ensures
            s@ == pretty(self.shape(), Seq::empty()),
    {
        let mut out = String::new();
        proof {
            reveal_strlit("");
        }
        let ghost empty_view = ""@;
        assert(empty_view =~= Seq::<char>::empty());
        self.fmt_pretty_with_indent("", &mut out);
        assert(out@ =~= pretty(self.shape(), Seq::empty()));
        out
    }
}

/// `p` stands in `t` as a contiguous piece starting at position `k`.
pub open spec fn occurs_at(t: Seq<char>, p: Seq<char>, k: int) -> bool {
    &&& 0 <= k
    &&& k + p.len() <= t.len()
    &&& t.subrange(k, k + p.len()) =~= p
}

/// `p` stands somewhere in `t` as a contiguous piece.
pub open spec fn occurs_in(t: Seq<char>, p: Seq<char>) -> bool {
    exists|k: int| #[trigger] occurs_at(t, p, k)
}

proof fn lemma_occurs_trans(t: Seq<char>, p: Seq<char>, q: Seq<char>, k1: int, k2: int)
    requires
        occurs_at(t, p, k1),
        occurs_at(p, q, k2),
    ensures
        occurs_at(t, q, k1 + k2),
{
    assert forall|m: int| 0 <= m < q.len() implies t.subrange(k1 + k2, k1 + k2 + q.len())[m] == q[m] by {
        assert(q[m] == p.subrange(k2, k2 + q.len())[m]);
        assert(p[k2 + m] == t.subrange(k1, k1 + p.len())[k2 + m]);
    }
}

/// The text of the first `j` children is where the text of all of them begins.
proof fn lemma_children_text_prefix<T: BTreeKey>(c: Seq<Shape<T>>, s: Seq<char>, j: int)
    requires
        0 <= j <= c.len(),
    ensures
        occurs_at(children_text(c, s), children_text(c.take(j), s), 0),
    decreases c.len(),
{
    let t = children_text(c, s);
    if j == c.len() {
        assert(c.take(j) =~= c);
        assert(t.subrange(0, t.len() as int) =~= t);
    } else {
        let d = c.drop_last();
        assert(d.take(j) =~= c.take(j));
        lemma_children_text_prefix(d, s, j);
        let u = children_text(d, s);
        let a = children_text(c.take(j), s);
        assert(t == u + s + "  child["@ + decimal((c.len() - 1) as nat) + "]:\n"@ + pretty(
            c.last(),
            s + "  "@,
        ));
        assert forall|m: int| 0 <= m < a.len() implies t.subrange(0, a.len() as int)[m] == a[m] by {
            assert(a[m] == u.subrange(0, a.len() as int)[m]);
        }
    }
}

/// Children are written two spaces further in than their parent, at every
/// depth: the text of a node written after `s` opens with `s` and its header,
/// then `s` and its elements line, and closes with `s` and the closing brace;
/// in it, the header line of child `i` (after `s` and two spaces) is followed
/// directly by the whole text of that child written after `s` and two more
/// spaces.
pub proof fn lemma_child_text_nested<T: BTreeKey>(n: Shape<T>, s: Seq<char>, i: int)
    requires
        0 <= i < n.children.len(),
    ensures
        (s + "BTreeNode {\n"@ + s + "  elements: ["@).is_prefix_of(pretty(n, s)),
        (s + "}\n"@).is_suffix_of(pretty(n, s)),
        occurs_in(
            pretty(n, s),
            s + "  child["@ + decimal(i as nat) + "]:\n"@ + pretty(n.children[i], s + "  "@),
        ),
        occurs_in(pretty(n, s), pretty(n.children[i], s + "  "@)),
{
    let c = n.children;
    let p = pretty(c[i], s + "  "@);
    let hd = s + "  child["@ + decimal(i as nat) + "]:\n"@;
    let hp = hd + p;
    let head = s + "BTreeNode {\n"@ + s + "  elements: ["@ + slots_text(n.elements, ELEMENTS_LEN as nat)
        + "]\n"@;
    let tail = s + "}\n"@;
    let t = children_text(c, s);
    let whole = pretty(n, s);
    assert(whole == head + t + tail);
    let a = children_text(c.take(i + 1), s);
    lemma_children_text_prefix(c, s, i + 1);
    let ci = c.take(i + 1);
    assert(ci.drop_last() =~= c.take(i));
    assert(ci.last() == c[i]);
    let x0 = children_text(c.take(i), s);
    assert(a =~= x0 + hp);
    assert(occurs_at(a, hp, x0.len() as int)) by {
        assert forall|m: int| 0 <= m < hp.len() implies a.subrange(
            x0.len() as int,
            (x0.len() + hp.len()) as int,
        )[m] == hp[m] by {
            assert(a[x0.len() + m] == hp[m]);
        }
    }
    assert(occurs_at(hp, p, hd.len() as int)) by {
        assert forall|m: int| 0 <= m < p.len() implies hp.subrange(
            hd.len() as int,
            (hd.len() + p.len()) as int,
        )[m] == p[m] by {
            assert(hp[hd.len() + m] == p[m]);
        }
    }
    lemma_occurs_trans(t, a, hp, 0, x0.len() as int);
    assert(occurs_at(whole, t, head.len() as int)) by {
        assert forall|m: int| 0 <= m < t.len() implies whole.subrange(
            head.len() as int,
            (head.len() + t.len()) as int,
        )[m] == t[m] by {
            assert(whole[head.len() + m] == (head + t)[head.len() + m]);
        }
    }
    lemma_occurs_trans(whole, t, hp, head.len() as int, x0.len() as int);
    lemma_occurs_trans(whole, hp, p, (head.len() + x0.len()) as int, hd.len() as int);
    let top = s + "BTreeNode {\n"@ + s + "  elements: ["@;
    assert(whole.subrange(0, top.len() as int) =~= top) by {
        assert forall|m: int| 0 <= m < top.len() implies whole[m] == top[m] by {
            assert(whole[m] == head[m]);
        }
    }
    let k = whole.len() - tail.len();
    assert(whole.subrange(k, whole.len() as int) =~= tail) by {
        assert forall|m: int| 0 <= m < tail.len() implies whole[k + m] == tail[m] by {
            assert(whole[(head + t).len() + m] == tail[m]);
        }
    }
}

/// Two levels down the indent is four spaces more: in the text of a node
/// written after `s`, the text of grandchild `j` of child `i` stands whole,
/// written after `s` and four more spaces.
pub proof fn lemma_grandchild_text_nested<T: BTreeKey>(n: Shape<T>, s: Seq<char>, i: int, j: int)
    requires
        0 <= i < n.children.len(),
        0 <= j < n.children[i].children.len(),
    ensures
        occurs_in(pretty(n, s), pretty(n.children[i].children[j], s + "    "@)),
{
    let c = n.children[i];
    lemma_child_text_nested(n, s, i);
    lemma_child_text_nested(c, s + "  "@, j);
    reveal_strlit("  ");
    reveal_strlit("    ");
    assert(s + "  "@ + "  "@ =~= s + "    "@);
    let p = pretty(c, s + "  "@);
    let q = pretty(c.children[j], s + "    "@);
    let k1 = choose|k: int| occurs_at(pretty(n, s), p, k);
    let k2 = choose|k: int| occurs_at(p, q, k);
    lemma_occurs_trans(pretty(n, s), p, q, k1, k2);
}

/// Inserting keys one after another: the tree ends up holding what it held
/// plus every inserted key, as often as it was inserted, so `find` succeeds
/// for each of them. `views[i]` is the tree's model before the `i`-th insert.
pub proof fn lemma_inserts_accumulate(views: Seq<Multiset<int>>, keys: Seq<int>)
    requires
        views.len() == keys.len() + 1,
        forall|i: int| 0 <= i < keys.len() ==> #[trigger] views[i + 1] == views[i].insert(keys[i]),
    ensures
        views.last() =~= views[0].add(keys.to_multiset()),
        forall|i: int| 0 <= i < keys.len() ==> views.last().count(#[trigger] keys[i]) > 0,
    decreases keys.len(),
{
    broadcast use vstd::seq_lib::group_to_multiset_ensures;

    if keys.len() == 0 {
        assert(keys.to_multiset() =~= Multiset::<int>::empty());
    } else {
        let n = keys.len() - 1;
        lemma_inserts_accumulate(views.drop_last(), keys.drop_last());
        assert(views.drop_last()[0] == views[0]);
        assert(views.drop_last().last() == views[n]);
        assert(views[n + 1] == views[n].insert(keys[n]));
        assert(keys.drop_last().push(keys[n]) =~= keys);
        assert forall|i: int| 0 <= i < keys.len() implies views.last().count(#[trigger] keys[i]) > 0 by {
            assert(keys.contains(keys[i]));
        }
    }
}

/// What a read gives back of a write: once `x` is inserted (so that the tree
/// holds what it held plus the key of `x`), `find(x)` succeeds, the key is held
/// once more than before, and no key is lost.
pub proof fn lemma_insert_then_find<T: BTreeKey>(before: BTree<T>, after: BTree<T>, x: T)
    requires
        after@ =~= before@.insert(x.key()),
    ensures
        after@.count(x.key()) > 0,
        after@.count(x.key()) == before@.count(x.key()) + 1,
        forall|k: int| k != x.key() ==> #[trigger] after@.count(k) == before@.count(k),
{
}

} // verus!
