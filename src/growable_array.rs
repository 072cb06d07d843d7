//! Growable array: a tree of fixed-size segments addressed by an unsigned index.
use vstd::prelude::*;
use vstd::arithmetic::div_mod::{lemma_div_is_ordered, lemma_fundamental_div_mod};
use vstd::arithmetic::power2::{lemma2_to64, lemma_pow2_adds, pow2};
use vstd::set_lib::{lemma_int_range, lemma_len_subset, lemma_set_disjoint_lens, set_int_range};

verus! {

/// Number of index bits that one segment resolves.
pub const SEGMENT_LOGSIZE: usize = 10;

/// Number of slots in one segment (`1 << SEGMENT_LOGSIZE`).
pub const SEGMENT_SIZE: usize = 1024;

/// The value of an empty slot.
pub const NULL: usize = 0;

/// The least height whose tree addresses `i`: the number of `SEGMENT_LOGSIZE`-bit chunks of `i`
/// above the lowest one.
pub open spec fn required_height_of(i: nat) -> nat
    decreases i,
{
    if i < SEGMENT_SIZE {
        0
    } else {
        1 + required_height_of(i / SEGMENT_SIZE as nat)
    }
}

/// Computes the least height whose tree addresses `index`.
pub fn required_height(index: usize) -> (h: usize)
    ensures
        h == required_height_of(index as nat),
{
    let mut rest: usize = index;
    let mut h: usize = 0;
    while rest >= SEGMENT_SIZE
        invariant
            h + required_height_of(rest as nat) == required_height_of(index as nat),
            h <= index - rest,
        decreases rest,
    {
        rest = rest / SEGMENT_SIZE;
        h = h + 1;
    }
    h
}

/// `i` with its lowest `l` chunks of `SEGMENT_LOGSIZE` bits shifted out.
pub open spec fn shifted(i: nat, l: nat) -> nat
    decreases l,
{
    if l == 0 {
        i
    } else {
        shifted(i / SEGMENT_SIZE as nat, (l - 1) as nat)
    }
}

/// The chunk of `SEGMENT_LOGSIZE` bits of `i` that selects a branch at level `l` (level 0 is the
/// leaf level).
pub open spec fn chunk(i: nat, l: nat) -> nat {
    shifted(i, l) % SEGMENT_SIZE as nat
}

/// Computes the branch of `index` at `level`.
fn chunk_at(index: usize, level: usize) -> (r: usize)
    ensures
        r == chunk(index as nat, level as nat),
        r < SEGMENT_SIZE,
{
    let mut rest: usize = index;
    let mut k: usize = 0;
    while k < level
        invariant
            k <= level,
            shifted(rest as nat, (level - k) as nat) == shifted(index as nat, level as nat),
        decreases level - k,
    {
        rest = rest / SEGMENT_SIZE;
        k = k + 1;
    }
    rest % SEGMENT_SIZE
}

/// Creates a segment: `SEGMENT_SIZE` null cells, which serve as a leaf or an interior segment
/// alike.
fn new_segment() -> (seg: Vec<usize>)
    ensures
        seg@.len() == SEGMENT_SIZE,
        forall|k: int| 0 <= k < SEGMENT_SIZE ==> seg@[k] == NULL,
{
    let mut seg: Vec<usize> = Vec::with_capacity(SEGMENT_SIZE);
    let mut k: usize = 0;
    while k < SEGMENT_SIZE
        invariant
            k <= SEGMENT_SIZE,
            seg@.len() == k,
            forall|m: int| 0 <= m < k ==> seg@[m] == NULL,
        decreases SEGMENT_SIZE - k,
    {
        seg.push(NULL);
        k = k + 1;
    }
    seg
}

proof fn lemma_shifted_zero(l: nat)
    ensures
        shifted(0, l) == 0,
    decreases l,
{
    if l > 0 {
        lemma_shifted_zero((l - 1) as nat);
    }
}

/// Above its required height an index has only zero chunks.
proof fn lemma_chunk_above(i: nat, h: nat)
    requires
        required_height_of(i) <= h,
    ensures
        shifted(i, h + 1) == 0,
        chunk(i, h + 1) == 0,
    decreases h,
{
    if i < SEGMENT_SIZE {
        lemma_shifted_zero(h);
    } else {
        lemma_chunk_above(i / SEGMENT_SIZE as nat, (h - 1) as nat);
    }
}

/// At its own required height, the top chunk of an index above the lowest range is not zero.
proof fn lemma_chunk_top(i: nat, h: nat)
    requires
        required_height_of(i) == h,
    ensures
        shifted(i, h) < SEGMENT_SIZE,
        h > 0 ==> chunk(i, h) != 0,
    decreases h,
{
    if h > 0 {
        lemma_chunk_top(i / SEGMENT_SIZE as nat, (h - 1) as nat);
    }
}

/// A larger index never needs a lower tree.
proof fn lemma_required_height_monotone(a: nat, b: nat)
    requires
        a <= b,
    ensures
        required_height_of(a) <= required_height_of(b),
    decreases b,
{
    if a >= SEGMENT_SIZE {
        lemma_div_is_ordered(a as int, b as int, SEGMENT_SIZE as int);
        lemma_required_height_monotone(a / SEGMENT_SIZE as nat, b / SEGMENT_SIZE as nat);
    }
}

/// A tree of height `h` addresses `2^((h+1)·SEGMENT_LOGSIZE)` indices; the required height of `i`
/// is the least one whose tree addresses `i`.
pub proof fn lemma_required_height_bounds(i: nat)
    ensures
        i < pow2(((required_height_of(i) + 1) * SEGMENT_LOGSIZE) as nat),
        required_height_of(i) > 0 ==> pow2((required_height_of(i) * SEGMENT_LOGSIZE) as nat) <= i,
    decreases i,
{
    let h = required_height_of(i);
    lemma2_to64();
    if i >= SEGMENT_SIZE {
        let q = i / SEGMENT_SIZE as nat;
        lemma_required_height_bounds(q);
        lemma_pow2_adds(SEGMENT_LOGSIZE as nat, (h * SEGMENT_LOGSIZE) as nat);
        assert(((h + 1) * SEGMENT_LOGSIZE) as nat == (SEGMENT_LOGSIZE + h * SEGMENT_LOGSIZE) as nat)
            by (nonlinear_arith);
        let x = pow2((h * SEGMENT_LOGSIZE) as nat);
        assert(q < x);
        assert(i < 1024 * x) by (nonlinear_arith)
            requires
                q < x,
                q == i / 1024,
        ;
        if h > 1 {
            lemma_pow2_adds(SEGMENT_LOGSIZE as nat, ((h - 1) * SEGMENT_LOGSIZE) as nat);
            assert((h * SEGMENT_LOGSIZE) as nat == (SEGMENT_LOGSIZE + (h - 1) * SEGMENT_LOGSIZE) as nat)
                by (nonlinear_arith)
                requires
                    h > 1,
            ;
            let y = pow2(((h - 1) * SEGMENT_LOGSIZE) as nat);
            assert(1024 * y <= i) by (nonlinear_arith)
                requires
                    y <= q,
                    q == i / 1024,
            ;
        }
    }
}

/// The largest of `indices`; 0 for none.
pub open spec fn max_index(indices: Seq<usize>) -> nat
    decreases indices.len(),
{
    if indices.len() == 0 {
        0
    } else {
        let m = max_index(indices.drop_last());
        if indices.last() as nat >= m {
            indices.last() as nat
        } else {
            m
        }
    }
}

proof fn lemma_shifted_next(i: nat, l: nat)
    ensures
        shifted(i, l + 1) == shifted(i, l) / SEGMENT_SIZE as nat,
    decreases l,
{
    if l > 0 {
        lemma_shifted_next(i / SEGMENT_SIZE as nat, (l - 1) as nat);
    } else {
        assert(shifted(i / SEGMENT_SIZE as nat, 0) == i / SEGMENT_SIZE as nat);
    }
}

/// Two indices with the same chunks at levels `0..=h` and nothing above are equal.
proof fn lemma_chunks_determine(i: nat, k: nat, h: nat, l: nat)
    requires
        l <= h + 1,
        forall|m: nat| m <= h ==> #[trigger] chunk(i, m) == chunk(k, m),
        shifted(i, h + 1) == shifted(k, h + 1),
    ensures
        shifted(i, l) == shifted(k, l),
    decreases h + 1 - l,
{
    if l <= h {
        lemma_chunks_determine(i, k, h, l + 1);
        lemma_shifted_next(i, l);
        lemma_shifted_next(k, l);
        lemma_fundamental_div_mod(shifted(i, l) as int, SEGMENT_SIZE as int);
        lemma_fundamental_div_mod(shifted(k, l) as int, SEGMENT_SIZE as int);
        assert(chunk(i, l) == chunk(k, l));
    }
}

/// A slot of the array: the handle of a leaf segment and a position inside it.
#[derive(Clone, Copy, Debug, PartialEq, Eq, Structural)]
pub struct Slot {
    pub segment: usize,
    pub offset: usize,
}

/// A growable array of slots.
///
/// The segments live in an arena and are named by their position in it. Every segment is a block
/// of `SEGMENT_SIZE` cells holding `NULL` or a value. In an interior segment a non-null cell holds
/// one more than the handle of a child segment; in a leaf segment it holds an element reference
/// that belongs to the caller. Which of the two a segment is follows from its depth alone, which
/// every traversal carries along; the segment itself records nothing of it.
///
/// Segments are only ever added: none is unlinked or moved once published, so a slot keeps
/// addressing its index for the whole life of the array. Calls that change the array take
/// `&mut self`; an array shared between threads is changed under the caller's own exclusion.
///
/// The ghost sequences give, for each segment, its level (0 for a leaf), its parent segment (-1
/// for the root) and the branch of the parent that holds it.
pub struct GrowableArray {
    segments: Vec<Vec<usize>>,
    root: usize,
    height: usize,
    level: Ghost<Seq<nat>>,
    parent: Ghost<Seq<int>>,
    branch: Ghost<Seq<nat>>,
}

impl GrowableArray {
    /// Number of interior levels above the leaf level.
    pub closed spec fn height_spec(self) -> nat {
        self.height as nat
    }

    /// Number of segments published into the tree.
    pub closed spec fn segment_count_spec(self) -> nat {
        self.segments@.len()
    }

    /// Whether the tree has no segment yet.
    pub closed spec fn is_empty_spec(self) -> bool {
        self.root == NULL
    }

    /// Cell `j` of segment `s`.
    pub closed spec fn cell(self, s: int, j: int) -> usize {
        self.segments@[s]@[j]
    }

    /// The segment reached from segment `s` at level `l` by following the branches of `i` down to
    /// level `stop`; `None` where a cell on the way is null.
    pub closed spec fn descend(self, s: int, l: nat, i: nat, stop: nat) -> Option<int>
        decreases l,
    {
        if l <= stop {
            Some(s)
        } else {
            let c = self.segments@[s]@[chunk(i, l) as int];
            if c == NULL {
                None
            } else {
                self.descend(c - 1, (l - 1) as nat, i, stop)
            }
        }
    }

    /// The slot that addresses index `i`, where the tree holds the whole path to it.
    pub closed spec fn slot_at(self, i: nat) -> Option<Slot> {
        if self.root == NULL || required_height_of(i) > self.height {
            None
        } else {
            match self.descend(self.root - 1, self.height as nat, i, 0) {
                Some(s) => Some(Slot { segment: s as usize, offset: (i % SEGMENT_SIZE as nat) as usize }),
                None => None,
            }
        }
    }

    /// The content of the slot of index `i`; `NULL` where no slot addresses `i` yet.
    pub closed spec fn value(self, i: nat) -> usize {
        match self.slot_at(i) {
            Some(s) => self.cell(s.segment as int, s.offset as int),
            None => NULL,
        }
    }

    /// Whether `s` names a cell of a leaf segment.
    pub closed spec fn is_leaf_slot(self, s: Slot) -> bool {
        &&& s.segment < self.segments@.len()
        &&& self.level@[s.segment as int] == 0
        &&& s.offset < SEGMENT_SIZE
    }

    /// The tree shape: every segment but the root hangs from exactly the cell of its parent that
    /// its ghost branch names, one level up; every non-null interior cell holds a child whose
    /// ghost parent and branch name that cell.
    pub closed spec fn wf(self) -> bool {
        let n = self.segments@.len();
        &&& n <= usize::MAX
        &&& self.level@.len() == n
        &&& self.parent@.len() == n
        &&& self.branch@.len() == n
        &&& (self.root == NULL) == (n == 0)
        &&& self.root != NULL ==> {
            &&& self.root - 1 < n
            &&& self.level@[self.root - 1] == self.height
            &&& self.parent@[self.root - 1] == -1
        }
        &&& forall|s: int| 0 <= s < n ==> (#[trigger] self.segments@[s])@.len() == SEGMENT_SIZE
        &&& forall|s: int| 0 <= s < n ==> #[trigger] self.level@[s] <= self.height
        &&& forall|s: int|
            0 <= s < n && s != self.root - 1 ==> {
                &&& 0 <= #[trigger] self.parent@[s] < n
                &&& self.level@[self.parent@[s]] == self.level@[s] + 1
                &&& self.branch@[s] < SEGMENT_SIZE
                &&& self.segments@[self.parent@[s]]@[self.branch@[s] as int] == s + 1
            }
        &&& forall|s: int, j: int|
            0 <= s < n && 0 <= j < SEGMENT_SIZE && self.level@[s] > 0
                && #[trigger] self.segments@[s]@[j] != NULL ==> {
                &&& self.segments@[s]@[j] - 1 < n
                &&& self.parent@[self.segments@[s]@[j] - 1] == s
                &&& self.branch@[self.segments@[s]@[j] - 1] == j
            }
    }

    /// Creates an empty array: no segment, height 0.
    pub fn new() -> (r: Self)
        ensures
            r.wf(),
            r.height_spec() == 0,
            r.segment_count_spec() == 0,
            r.is_empty_spec(),
            forall|i: nat| r.slot_at(i).is_none(),
            forall|i: nat| r.value(i) == NULL,
    {
        GrowableArray {
            segments: Vec::new(),
            root: NULL,
            height: 0,
            level: Ghost(Seq::empty()),
            parent: Ghost(Seq::empty()),
            branch: Ghost(Seq::empty()),
        }
    }

    /// A segment reached from a segment of level `l` by a successful descent down to `stop` lies
    /// at level `stop`.
    proof fn lemma_descend_level(self, s: int, l: nat, i: nat, stop: nat)
        requires
            self.wf(),
            0 <= s < self.segments@.len(),
            self.level@[s] == l,
            stop <= l,
            self.descend(s, l, i, stop).is_some(),
        ensures
            0 <= self.descend(s, l, i, stop).unwrap() < self.segments@.len(),
            self.level@[self.descend(s, l, i, stop).unwrap()] == stop,
        decreases l,
    {
        if l > stop {
            let c = self.segments@[s]@[chunk(i, l) as int];
            assert(self.segments@[s]@[chunk(i, l) as int] != NULL);
            self.lemma_descend_level(c - 1, (l - 1) as nat, i, stop);
        }
    }

    /// A descent that succeeds in `self` reads only non-null cells of segments above `stop`, so it
    /// gives the same segment in any `new` that keeps those cells.
    proof fn lemma_descend_kept(self, new: Self, s: int, l: nat, i: nat, stop: nat)
        requires
            self.wf(),
            0 <= s < self.segments@.len(),
            self.level@[s] == l,
            forall|x: int, k: int|
                0 <= x < self.segments@.len() && self.level@[x] > stop && 0 <= k < SEGMENT_SIZE
                    && #[trigger] self.segments@[x]@[k] != NULL ==> new.segments@[x]@[k]
                    == self.segments@[x]@[k],
            self.descend(s, l, i, stop).is_some(),
        ensures
            new.descend(s, l, i, stop) == self.descend(s, l, i, stop),
        decreases l,
    {
        if l > stop {
            let c = self.segments@[s]@[chunk(i, l) as int];
            assert(c != NULL);
            self.lemma_descend_kept(new, c - 1, (l - 1) as nat, i, stop);
        }
    }

    /// A descent whose cells above `stop` are the same in `new` gives the same result there.
    proof fn lemma_descend_same(self, new: Self, s: int, l: nat, i: nat, stop: nat)
        requires
            self.wf(),
            0 <= s < self.segments@.len(),
            self.level@[s] == l,
            forall|x: int, k: int|
                0 <= x < self.segments@.len() && self.level@[x] > stop && 0 <= k < SEGMENT_SIZE
                    ==> #[trigger] new.segments@[x]@[k] == self.segments@[x]@[k],
        ensures
            new.descend(s, l, i, stop) == self.descend(s, l, i, stop),
        decreases l,
    {
        if l > stop {
            let c = self.segments@[s]@[chunk(i, l) as int];
            assert(new.segments@[s]@[chunk(i, l) as int] == c);
            if c != NULL {
                self.lemma_descend_same(new, c - 1, (l - 1) as nat, i, stop);
            }
        }
    }

    /// Two descents from the root that meet at level 0 took the same branches at every level on
    /// the way.
    proof fn lemma_same_leaf(self, i: nat, k: nat, l: nat)
        requires
            self.wf(),
            self.root != NULL,
            self.descend(self.root - 1, self.height as nat, i, 0).is_some(),
            self.descend(self.root - 1, self.height as nat, i, 0) == self.descend(
                self.root - 1,
                self.height as nat,
                k,
                0,
            ),
            l <= self.height,
        ensures
            self.descend(self.root - 1, self.height as nat, i, l).is_some(),
            self.descend(self.root - 1, self.height as nat, i, l) == self.descend(
                self.root - 1,
                self.height as nat,
                k,
                l,
            ),
            forall|m: nat| 0 < m <= l ==> #[trigger] chunk(i, m) == chunk(k, m),
        decreases l,
    {
        let r = self.root - 1;
        let big_h = self.height as nat;
        if l > 0 {
            let m = (l - 1) as nat;
            self.lemma_same_leaf(i, k, m);
            if self.descend(r, big_h, i, l).is_none() {
                self.lemma_descend_fails(r, big_h, i, l, 0);
            }
            if self.descend(r, big_h, k, l).is_none() {
                self.lemma_descend_fails(r, big_h, k, l, 0);
            }
            let pi = self.descend(r, big_h, i, l).unwrap();
            let pk = self.descend(r, big_h, k, l).unwrap();
            self.lemma_descend_level(r, big_h, i, l);
            self.lemma_descend_level(r, big_h, k, l);
            self.lemma_descend_step(r, big_h, i, l);
            self.lemma_descend_step(r, big_h, k, l);
            let c = self.descend(r, big_h, i, m).unwrap();
            assert(self.segments@[pi]@[chunk(i, l) as int] == c + 1);
            assert(self.segments@[pk]@[chunk(k, l) as int] == c + 1);
        }
    }

    /// A descent from a segment of null cells ends there at level 0 and fails above it.
    proof fn lemma_descend_fresh(self, t: int, l: nat, i: nat)
        requires
            forall|k: int| 0 <= k < SEGMENT_SIZE ==> #[trigger] self.segments@[t]@[k] == NULL,
        ensures
            self.descend(t, l, i, 0) == if l == 0 {
                Some(t)
            } else {
                None::<int>
            },
    {
    }

    /// Linking the null cell `(s, j)` of `before` to the fresh null segment `c` gives `after`. A
    /// descent that failed in `before` fails in `after` too, or ends in a null cell of `c`'s
    /// subtree.
    proof fn lemma_descend_linked(
        before: Self,
        after: Self,
        s: int,
        j: int,
        c: int,
        x: int,
        l: nat,
        i: nat,
    )
        requires
            before.wf(),
            0 <= x < before.segments@.len(),
            before.level@[x] == l,
            c == before.segments@.len(),
            0 <= j < SEGMENT_SIZE,
            after.segments@[s]@[j] == c + 1,
            forall|k: int| 0 <= k < SEGMENT_SIZE ==> #[trigger] after.segments@[c]@[k] == NULL,
            forall|y: int, k: int|
                0 <= y < c && 0 <= k < SEGMENT_SIZE && (y != s || k != j)
                    ==> #[trigger] after.segments@[y]@[k] == before.segments@[y]@[k],
            before.descend(x, l, i, 0).is_none(),
        ensures
            match after.descend(x, l, i, 0) {
                Some(t) => after.segments@[t]@[(i % SEGMENT_SIZE as nat) as int] == NULL,
                None => true,
            },
        decreases l,
    {
        let k = chunk(i, l) as int;
        if x == s && k == j {
            after.lemma_descend_fresh(c, (l - 1) as nat, i);
        } else {
            let cb = before.segments@[x]@[k];
            assert(after.segments@[x]@[k] == cb);
            if cb != NULL {
                Self::lemma_descend_linked(before, after, s, j, c, cb - 1, (l - 1) as nat, i);
            }
        }
    }

    /// One more step of a descent: from the segment reached at level `l`, through its cell on the
    /// path of `i`.
    proof fn lemma_descend_step(self, r: int, big_l: nat, i: nat, l: nat)
        requires
            0 < l <= big_l,
            self.descend(r, big_l, i, l).is_some(),
        ensures
            ({
                let s = self.descend(r, big_l, i, l).unwrap();
                let c = self.segments@[s]@[chunk(i, l) as int];
                self.descend(r, big_l, i, (l - 1) as nat) == if c == NULL {
                    None
                } else {
                    Some(c - 1)
                }
            }),
        decreases big_l,
    {
        if big_l > l {
            let c0 = self.segments@[r]@[chunk(i, big_l) as int];
            self.lemma_descend_step(c0 - 1, (big_l - 1) as nat, i, l);
        } else {
            let c = self.segments@[r]@[chunk(i, l) as int];
            assert(self.descend(c - 1, (l - 1) as nat, i, (l - 1) as nat) == Some(c - 1));
        }
    }

    /// A descent that fails above a level fails below it as well.
    proof fn lemma_descend_fails(self, r: int, big_l: nat, i: nat, a: nat, b: nat)
        requires
            b <= a,
            self.descend(r, big_l, i, a).is_none(),
        ensures
            self.descend(r, big_l, i, b).is_none(),
        decreases big_l,
    {
        if big_l > a {
            let c0 = self.segments@[r]@[chunk(i, big_l) as int];
            if c0 != NULL {
                self.lemma_descend_fails(c0 - 1, (big_l - 1) as nat, i, a, b);
            }
        }
    }

    /// `later` addresses every index that `self` addresses, at the same slot, and is at least as
    /// tall.
    pub open spec fn grows_to(self, later: Self) -> bool {
        &&& self.height_spec() <= later.height_spec()
        &&& forall|i: nat| (#[trigger] self.slot_at(i)).is_some() ==> later.slot_at(i) == self.slot_at(i)
    }

    /// Publishes a child segment under cell `j` of the interior segment `s`, or adopts the one that
    /// is already there; returns its handle.
    fn install_child(&mut self, s: usize, j: usize) -> (c: usize)
        requires
            old(self).wf(),
            s < old(self).segments@.len(),
            old(self).level@[s as int] > 0,
            j < SEGMENT_SIZE,
        ensures
            final(self).wf(),
            final(self).root == old(self).root,
            final(self).height == old(self).height,
            c < final(self).segments@.len(),
            final(self).level@[c as int] == old(self).level@[s as int] - 1,
            final(self).segments@[s as int]@[j as int] == c + 1,
            old(self).segments@[s as int]@[j as int] != NULL ==> *final(self) == *old(self),
            old(self).segments@[s as int]@[j as int] == NULL ==> {
                &&& c == old(self).segments@.len()
                &&& final(self).segments@.len() == c + 1
                &&& final(self).level@ == old(self).level@.push(final(self).level@[c as int])
                &&& forall|k: int| 0 <= k < SEGMENT_SIZE ==> #[trigger] final(self).segments@[c as int]@[k] == NULL
                &&& forall|x: int, k: int|
                    0 <= x < c && 0 <= k < SEGMENT_SIZE && (x != s || k != j)
                        ==> #[trigger] final(self).segments@[x]@[k] == old(self).segments@[x]@[k]
            },
    {
        let cur = self.segments[s][j];
        if cur != NULL {
            return cur - 1;
        }
        let c = self.segments.len();
        self.segments.push(new_segment());
        self.level = Ghost(self.level@.push((self.level@[s as int] - 1) as nat));
        self.parent = Ghost(self.parent@.push(s as int));
        self.branch = Ghost(self.branch@.push(j as nat));
        let link = self.segments.len();
        self.segments[s][j] = link;
        c
    }

    /// Raises the height to at least `required`. A non-empty tree gets a new root per level, whose
    /// branch 0 holds the old root: the old root covers the lowest range of the taller tree.
    fn grow(&mut self, required: usize)
        requires
            old(self).wf(),
        ensures
            final(self).wf(),
            final(self).height == if old(self).height >= required {
                old(self).height
            } else {
                required
            },
            old(self).grows_to(*final(self)),
            old(self).height >= required ==> *final(self) == *old(self),
            forall|i: nat| #[trigger] final(self).value(i) == old(self).value(i),
            (final(self).root == NULL) == (old(self).root == NULL),
            old(self).root != NULL ==> final(self).segments@.len() == old(self).segments@.len() + (
            final(self).height - old(self).height),
            old(self).root != NULL && old(self).height < required ==> forall|k: int|
                1 <= k < SEGMENT_SIZE ==> #[trigger] final(self).segments@[final(self).root - 1]@[k]
                    == NULL,
    {
        if self.root == NULL {
            if self.height < required {
                self.height = required;
            }
            return;
        }
        let ghost pre = *self;
        while self.height < required
            invariant
                self.wf(),
                self.root != NULL,
                pre.grows_to(*self),
                pre.height <= self.height,
                pre.height < required ==> self.height <= required,
                pre.height >= required ==> *self == pre,
                forall|i: nat| #[trigger] self.value(i) == pre.value(i),
                self.segments@.len() == pre.segments@.len() + (self.height - pre.height),
                pre.height < self.height ==> forall|k: int|
                    1 <= k < SEGMENT_SIZE ==> #[trigger] self.segments@[self.root - 1]@[k] == NULL,
            decreases required - self.height,
        {
            let ghost before = *self;
            let old_root = self.root - 1;
            let mut seg = new_segment();
            seg.set(0, self.root);
            let z = self.segments.len();
            self.segments.push(seg);
            self.level = Ghost(self.level@.push((self.height + 1) as nat));
            self.parent = Ghost(self.parent@.update(old_root as int, z as int).push(-1));
            self.branch = Ghost(self.branch@.update(old_root as int, 0).push(0));
            self.root = self.segments.len();
            self.height = self.height + 1;
            proof {
                let n = self.segments@.len();
                assert forall|x: int| 0 <= x < n implies (#[trigger] self.segments@[x])@.len()
                    == SEGMENT_SIZE by {
                    if x < z {
                        assert(self.segments@[x] == before.segments@[x]);
                    }
                }
                assert forall|x: int| 0 <= x < n && x != self.root - 1 implies {
                    &&& 0 <= #[trigger] self.parent@[x] < n
                    &&& self.level@[self.parent@[x]] == self.level@[x] + 1
                    &&& self.branch@[x] < SEGMENT_SIZE
                    &&& self.segments@[self.parent@[x]]@[self.branch@[x] as int] == x + 1
                } by {
                    if x != old_root {
                        assert(before.parent@[x] != -1);
                        assert(self.segments@[before.parent@[x]] == before.segments@[before.parent@[x]]);
                    }
                }
                assert forall|x: int, j: int|
                    0 <= x < n && 0 <= j < SEGMENT_SIZE && self.level@[x] > 0
                        && #[trigger] self.segments@[x]@[j] != NULL implies {
                    &&& self.segments@[x]@[j] - 1 < n
                    &&& self.parent@[self.segments@[x]@[j] - 1] == x
                    &&& self.branch@[self.segments@[x]@[j] - 1] == j
                } by {
                    if x < z {
                        assert(self.segments@[x] == before.segments@[x]);
                        assert(before.segments@[x]@[j] != NULL);
                        assert(before.segments@[x]@[j] - 1 != old_root);
                    }
                }
                assert(self.wf());
                assert forall|i: nat| #[trigger] before.slot_at(i).is_some() implies self.slot_at(
                    i,
                ) == before.slot_at(i) by {
                    lemma_chunk_above(i, before.height as nat);
                    before.lemma_descend_kept(*self, old_root as int, before.height as nat, i, 0);
                    assert(self.descend(z as int, self.height as nat, i, 0) == self.descend(
                        old_root as int,
                        before.height as nat,
                        i,
                        0,
                    ));
                }
                assert forall|i: nat| #[trigger] self.value(i) == before.value(i) by {
                    if before.slot_at(i).is_some() {
                        lemma_chunk_above(i, before.height as nat);
                        before.lemma_descend_kept(*self, old_root as int, before.height as nat, i, 0);
                        before.lemma_descend_level(old_root as int, before.height as nat, i, 0);
                        let t = before.slot_at(i).unwrap();
                        assert(self.segments@[t.segment as int] == before.segments@[t.segment as int]);
                    } else if required_height_of(i) <= before.height {
                        lemma_chunk_above(i, before.height as nat);
                        before.lemma_descend_same(*self, old_root as int, before.height as nat, i, 0);
                    } else if required_height_of(i) == self.height {
                        lemma_chunk_top(i, self.height as nat);
                    }
                }
            }
        }
    }

    /// Returns the slot that addresses `index`, first growing the tree until it addresses `index`
    /// and then creating the segments missing on the path to it. Slots that were addressed before
    /// keep their place; where the whole path exists already, nothing changes.
    pub fn get(&mut self, index: usize) -> (r: Slot)
        requires
            old(self).wf(),
        ensures
            final(self).wf(),
            final(self).height_spec() == if old(self).height_spec() >= required_height_of(index as nat) {
                old(self).height_spec()
            } else {
                required_height_of(index as nat)
            },
            final(self).slot_at(index as nat) == Some(r),
            final(self).is_leaf_slot(r),
            r.offset == index % SEGMENT_SIZE,
            old(self).grows_to(*final(self)),
            old(self).slot_at(index as nat).is_some() ==> *final(self) == *old(self),
            forall|i: nat| #[trigger] final(self).value(i) == old(self).value(i),
            final(self).segment_count_spec() == old(self).segment_count_spec() + old(
                self,
            ).new_segments_for(index as nat),
            !final(self).is_empty_spec(),
    {
        let required = required_height(index);
        self.grow(required);
        if self.root == NULL {
            self.segments.push(new_segment());
            self.level = Ghost(self.level@.push(self.height as nat));
            self.parent = Ghost(self.parent@.push(-1));
            self.branch = Ghost(self.branch@.push(0));
            self.root = self.segments.len();
            proof {
                assert forall|i: nat| #[trigger] self.value(i) == NULL by {
                    self.lemma_descend_fresh(0, self.height as nat, i);
                }
            }
        }
        let ghost mid = *self;
        let ghost big_h = self.height as nat;
        let ghost root = self.root - 1;
        let ghost low = mid.lowest_on_path(index as nat, big_h);
        proof {
            assert(mid.path_segment(index as nat, big_h) == Some(root));
            mid.lemma_lowest(index as nat, big_h);
            if big_h > 0 && (old(self).root == NULL || old(self).height < required) {
                if old(self).root != NULL {
                    lemma_chunk_top(index as nat, big_h);
                }
                mid.lemma_descend_step(root, big_h, index as nat, big_h);
                assert(mid.path_segment(index as nat, (big_h - 1) as nat).is_none());
            }
            assert(mid.segments@.len() + low == old(self).segments@.len() + old(self).new_segments_for(
                index as nat,
            ));
        }
        let mut s: usize = self.root - 1;
        let mut l: usize = self.height;
        while l > 0
            invariant
                self.wf(),
                self.root == mid.root,
                self.root != NULL,
                self.height == mid.height,
                big_h == self.height,
                root == self.root - 1,
                required_height_of(index as nat) <= big_h,
                s < self.segments@.len(),
                self.level@[s as int] == l,
                l <= big_h,
                self.descend(root, big_h, index as nat, l as nat) == Some(s as int),
                mid.grows_to(*self),
                mid.slot_at(index as nat).is_some() ==> *self == mid,
                forall|i: nat| #[trigger] self.value(i) == mid.value(i),
                low <= big_h,
                forall|m: nat| low <= m <= big_h ==> #[trigger] mid.path_segment(index as nat, m).is_some(),
                low > 0 ==> mid.path_segment(index as nat, (low - 1) as nat).is_none(),
                l >= low ==> *self == mid,
                l < low ==> self.segments@.len() == mid.segments@.len() + (low - l),
                l < low ==> forall|k: int| 0 <= k < SEGMENT_SIZE ==> #[trigger] self.segments@[s as int]@[k] == NULL,
                l == 0 ==> self.segments@.len() == mid.segments@.len() + low,
            decreases l,
        {
            let j = chunk_at(index, l);
            let ghost before = *self;
            let c = self.install_child(s, j);
            proof {
                before.lemma_descend_kept(*self, root, big_h, index as nat, l as nat);
                self.lemma_descend_step(root, big_h, index as nat, l as nat);
                assert forall|i: nat| #[trigger] mid.slot_at(i).is_some() implies self.slot_at(i)
                    == mid.slot_at(i) by {
                    assert(before.slot_at(i) == mid.slot_at(i));
                    before.lemma_descend_kept(*self, root, big_h, i, 0);
                }
                assert forall|i: nat| #[trigger] self.value(i) == before.value(i) by {
                    if before.slot_at(i).is_some() {
                        before.lemma_descend_kept(*self, root, big_h, i, 0);
                        before.lemma_descend_level(root, big_h, i, 0);
                        let t = before.slot_at(i).unwrap();
                        assert(self.slot_at(i) == Some(t));
                        if before.segments@[s as int]@[j as int] == NULL {
                            assert(t.segment != s);
                            assert(self.segments@[t.segment as int]@[t.offset as int]
                                == before.segments@[t.segment as int]@[t.offset as int]);
                        }
                    } else if required_height_of(i) <= big_h {
                        assert(before.descend(root, big_h, i, 0).is_none());
                        if before.segments@[s as int]@[j as int] == NULL {
                            Self::lemma_descend_linked(
                                before,
                                *self,
                                s as int,
                                j as int,
                                c as int,
                                root,
                                big_h,
                                i,
                            );
                            if self.descend(root, big_h, i, 0).is_some() {
                                self.lemma_descend_level(root, big_h, i, 0);
                            }
                        }
                    }
                }
                if l > low {
                    assert(mid.path_segment(index as nat, (l - 1) as nat).is_some());
                    before.lemma_descend_step(root, big_h, index as nat, l as nat);
                } else if l == low {
                    before.lemma_descend_step(root, big_h, index as nat, l as nat);
                }
                if mid.slot_at(index as nat).is_some() {
                    before.lemma_descend_step(root, big_h, index as nat, l as nat);
                    if before.segments@[s as int]@[j as int] == NULL {
                        before.lemma_descend_fails(root, big_h, index as nat, (l - 1) as nat, 0);
                    }
                }
            }
            s = c;
            l = l - 1;
        }
        Slot { segment: s, offset: index % SEGMENT_SIZE }
    }

    /// Writing a leaf cell changes no descent to the leaf level, and so no slot.
    proof fn lemma_leaf_write(self, new: Self, slot: Slot)
        requires
            self.wf(),
            self.is_leaf_slot(slot),
            new.root == self.root,
            new.height == self.height,
            forall|x: int, k: int|
                0 <= x < self.segments@.len() && 0 <= k < SEGMENT_SIZE && x != slot.segment
                    ==> #[trigger] new.segments@[x]@[k] == self.segments@[x]@[k],
        ensures
            forall|i: nat| #[trigger] new.slot_at(i) == self.slot_at(i),
    {
        assert forall|i: nat| #[trigger] new.slot_at(i) == self.slot_at(i) by {
            if self.root != NULL {
                self.lemma_descend_same(new, self.root - 1, self.height as nat, i, 0);
            }
        }
    }

    /// Reads the content of a slot.
    pub fn load(&self, slot: Slot) -> (v: usize)
        requires
            self.wf(),
            self.is_leaf_slot(slot),
        ensures
            v == self.cell(slot.segment as int, slot.offset as int),
            forall|i: nat| self.slot_at(i) == Some(slot) ==> v == #[trigger] self.value(i),
    {
        self.segments[slot.segment][slot.offset]
    }

    /// Writes `v` into a slot; every other slot keeps its content and every index its slot.
    pub fn store(&mut self, slot: Slot, v: usize)
        requires
            old(self).wf(),
            old(self).is_leaf_slot(slot),
        ensures
            final(self).wf(),
            final(self).height_spec() == old(self).height_spec(),
            final(self).segment_count_spec() == old(self).segment_count_spec(),
            final(self).is_leaf_slot(slot),
            final(self).cell(slot.segment as int, slot.offset as int) == v,
            old(self).grows_to(*final(self)),
            forall|i: nat| #[trigger] final(self).slot_at(i) == old(self).slot_at(i),
            forall|i: nat|
                #[trigger] final(self).value(i) == if old(self).slot_at(i) == Some(slot) {
                    v
                } else {
                    old(self).value(i)
                },
    {
        let ghost before = *self;
        self.segments[slot.segment][slot.offset] = v;
        proof {
            assert forall|x: int| 0 <= x < self.segments@.len() implies (#[trigger] self.segments@[x])@.len()
                == SEGMENT_SIZE by {
                assert(before.segments@[x]@.len() == SEGMENT_SIZE);
            }
            assert forall|x: int, j: int|
                0 <= x < self.segments@.len() && 0 <= j < SEGMENT_SIZE && self.level@[x] > 0
                    && #[trigger] self.segments@[x]@[j] != NULL implies {
                &&& self.segments@[x]@[j] - 1 < self.segments@.len()
                &&& self.parent@[self.segments@[x]@[j] - 1] == x
                &&& self.branch@[self.segments@[x]@[j] - 1] == j
            } by {
                assert(before.segments@[x]@[j] != NULL);
            }
            assert forall|x: int| 0 <= x < self.segments@.len() && x != self.root - 1 implies
                #[trigger] self.segments@[self.parent@[x]]@[self.branch@[x] as int] == x + 1 by {
                assert(before.segments@[before.parent@[x]]@[before.branch@[x] as int] == x + 1);
            }
            before.lemma_leaf_write(*self, slot);
            assert forall|i: nat| #[trigger] self.value(i) == if before.slot_at(i) == Some(slot) {
                v
            } else {
                before.value(i)
            } by {
                if before.slot_at(i).is_some() {
                    before.lemma_descend_level(before.root - 1, before.height as nat, i, 0);
                }
            }
        }
    }

    /// Writes `new` into a slot if it holds `current`: `Ok(current)` then, else `Err` with what
    /// the slot holds, which is left as it was.
    pub fn compare_exchange(&mut self, slot: Slot, current: usize, new: usize) -> (r: Result<
        usize,
        usize,
    >)
        requires
            old(self).wf(),
            old(self).is_leaf_slot(slot),
        ensures
            final(self).wf(),
            final(self).is_leaf_slot(slot),
            old(self).cell(slot.segment as int, slot.offset as int) == current ==> {
                &&& r == Ok::<usize, usize>(current)
                &&& final(self).cell(slot.segment as int, slot.offset as int) == new
                &&& forall|i: nat|
                    #[trigger] final(self).value(i) == if old(self).slot_at(i) == Some(slot) {
                        new
                    } else {
                        old(self).value(i)
                    }
            },
            old(self).cell(slot.segment as int, slot.offset as int) != current ==> {
                &&& r == Err::<usize, usize>(old(self).cell(slot.segment as int, slot.offset as int))
                &&& *final(self) == *old(self)
            },
            old(self).grows_to(*final(self)),
            forall|i: nat| #[trigger] final(self).slot_at(i) == old(self).slot_at(i),
    {
        let seen = self.load(slot);
        if seen == current {
            self.store(slot, new);
            Ok(current)
        } else {
            Err(seen)
        }
    }

    /// Number of interior levels above the leaf level.
    pub fn height(&self) -> (h: usize)
        ensures
            h == self.height_spec(),
    {
        self.height
    }

    /// Number of segments published into the tree.
    pub fn segment_count(&self) -> (n: usize)
        ensures
            n == self.segment_count_spec(),
    {
        self.segments.len()
    }

    /// The level of segment `s`: 0 for a leaf, the height for the root.
    pub closed spec fn level_of(self, s: int) -> nat {
        self.level@[s]
    }

    /// The branch of its parent under which segment `s` hangs.
    pub closed spec fn branch_of(self, s: int) -> nat {
        self.branch@[s]
    }

    /// The segment that the descent of `i` from the root reaches at level `l`.
    pub closed spec fn path_segment(self, i: nat, l: nat) -> Option<int> {
        if self.root == NULL {
            None
        } else {
            self.descend(self.root - 1, self.height as nat, i, l)
        }
    }

    /// The lowest level, at most `l`, down to which the descent of `i` from the root finds
    /// segments, where it finds one at level `l`.
    pub closed spec fn lowest_on_path(self, i: nat, l: nat) -> nat
        decreases l,
    {
        if l == 0 || self.path_segment(i, (l - 1) as nat).is_none() {
            l
        } else {
            self.lowest_on_path(i, (l - 1) as nat)
        }
    }

    /// The number of segments that `get(i)` publishes. An empty tree gets one per level of the
    /// tree built; a tree that must grow gets one new root per added level and the whole path of
    /// `i` below the top root; any other tree gets the levels of the path below the deepest
    /// segment that the descent of `i` finds.
    pub open spec fn new_segments_for(self, i: nat) -> nat {
        let h = required_height_of(i);
        if self.is_empty_spec() {
            (if self.height_spec() >= h {
                self.height_spec()
            } else {
                h
            }) + 1
        } else if self.height_spec() < h {
            ((h - self.height_spec()) + h) as nat
        } else {
            self.lowest_on_path(i, self.height_spec())
        }
    }

    proof fn lemma_lowest(self, i: nat, l: nat)
        requires
            self.path_segment(i, l).is_some(),
        ensures
            self.lowest_on_path(i, l) <= l,
            forall|m: nat|
                self.lowest_on_path(i, l) <= m <= l ==> #[trigger] self.path_segment(i, m).is_some(),
            self.lowest_on_path(i, l) > 0 ==> self.path_segment(
                i,
                (self.lowest_on_path(i, l) - 1) as nat,
            ).is_none(),
        decreases l,
    {
        if l > 0 && self.path_segment(i, (l - 1) as nat).is_some() {
            self.lemma_lowest(i, (l - 1) as nat);
        }
    }

    /// The ancestor `k` levels above segment `x`.
    pub closed spec fn ancestor(self, x: int, k: nat) -> int
        decreases k,
    {
        if k == 0 {
            x
        } else {
            self.ancestor(self.parent@[x], (k - 1) as nat)
        }
    }

    proof fn lemma_ancestor_next(self, x: int, k: nat)
        ensures
            self.ancestor(x, k + 1) == self.parent@[self.ancestor(x, k)],
        decreases k,
    {
        if k > 0 {
            self.lemma_ancestor_next(self.parent@[x], (k - 1) as nat);
        } else {
            assert(self.ancestor(self.parent@[x], 0) == self.parent@[x]);
        }
    }

    /// The segments that the teardown reaches from segment `s` at level `l` through its first `j`
    /// cells: `s` itself, and for an interior segment the subtrees below those cells.
    spec fn reach(self, s: int, l: nat, j: nat) -> Set<int>
        decreases l, j,
    {
        if j == 0 {
            set![s]
        } else {
            let prev = self.reach(s, l, (j - 1) as nat);
            let c = self.segments@[s]@[j - 1];
            if l == 0 || c == NULL {
                prev
            } else {
                prev.union(self.reach(c - 1, (l - 1) as nat, SEGMENT_SIZE as nat))
            }
        }
    }

    /// From a leaf the teardown reaches the leaf alone: it never reads a leaf's cells.
    proof fn lemma_reach_leaf(self, s: int, j: nat)
        ensures
            self.reach(s, 0, j) == set![s],
        decreases j,
    {
        if j > 0 {
            self.lemma_reach_leaf(s, (j - 1) as nat);
        }
    }

    /// What the teardown reaches from `s` lies below `s`, and below its first `j` cells.
    proof fn lemma_reach_below(self, s: int, l: nat, j: nat)
        requires
            self.wf(),
            0 <= s < self.segments@.len(),
            self.level@[s] == l,
            j <= SEGMENT_SIZE,
        ensures
            self.reach(s, l, j).finite(),
            self.reach(s, l, j).contains(s),
            forall|x: int| #[trigger]
                self.reach(s, l, j).contains(x) ==> {
                    &&& 0 <= x < self.segments@.len()
                    &&& self.level@[x] <= l
                    &&& self.ancestor(x, (l - self.level@[x]) as nat) == s
                    &&& x != s ==> self.level@[x] < l && self.branch@[self.ancestor(
                        x,
                        (l - 1 - self.level@[x]) as nat,
                    )] < j
                },
        decreases l, j,
    {
        if j > 0 {
            let prev = self.reach(s, l, (j - 1) as nat);
            let c = self.segments@[s]@[j - 1];
            self.lemma_reach_below(s, l, (j - 1) as nat);
            if l > 0 && c != NULL {
                let y = c - 1;
                self.lemma_reach_below(y, (l - 1) as nat, SEGMENT_SIZE as nat);
                assert forall|x: int| #[trigger]
                    self.reach(y, (l - 1) as nat, SEGMENT_SIZE as nat).contains(x) implies
                    self.ancestor(x, (l - self.level@[x]) as nat) == s by {
                    self.lemma_ancestor_next(x, (l - 1 - self.level@[x]) as nat);
                }
            }
        }
    }

    /// The teardown from `s` at level `l` reaches every child of every interior segment it
    /// reaches, except the children of `s` beyond its first `j` cells.
    proof fn lemma_reach_closed(self, s: int, l: nat, j: nat, p: int, k: int)
        requires
            self.wf(),
            0 <= s < self.segments@.len(),
            self.level@[s] == l,
            j <= SEGMENT_SIZE,
            self.reach(s, l, j).contains(p),
            0 <= k < SEGMENT_SIZE,
            self.level@[p] > 0,
            self.segments@[p]@[k] != NULL,
            p != s || k < j,
        ensures
            self.reach(s, l, j).contains(self.segments@[p]@[k] - 1),
        decreases l, j,
    {
        self.lemma_reach_below(s, l, j);
        if j > 0 {
            let c = self.segments@[s]@[j - 1];
            self.lemma_reach_below(s, l, (j - 1) as nat);
            if p == s {
                if k == j - 1 {
                    self.lemma_reach_below(c - 1, (l - 1) as nat, SEGMENT_SIZE as nat);
                } else {
                    self.lemma_reach_closed(s, l, (j - 1) as nat, p, k);
                }
            } else if self.reach(s, l, (j - 1) as nat).contains(p) {
                self.lemma_reach_closed(s, l, (j - 1) as nat, p, k);
            } else {
                self.lemma_reach_closed(c - 1, (l - 1) as nat, SEGMENT_SIZE as nat, p, k);
            }
        }
    }

    /// Every segment lies in the tree below the root.
    proof fn lemma_reach_all(self, x: int)
        requires
            self.wf(),
            0 <= x < self.segments@.len(),
        ensures
            self.reach(self.root - 1, self.height as nat, SEGMENT_SIZE as nat).contains(x),
        decreases self.height - self.level@[x],
    {
        let r = self.root - 1;
        if x == r {
            self.lemma_reach_below(r, self.height as nat, SEGMENT_SIZE as nat);
        } else {
            let p = self.parent@[x];
            self.lemma_reach_all(p);
            self.lemma_reach_closed(r, self.height as nat, SEGMENT_SIZE as nat, p, self.branch@[x] as int);
        }
    }

    /// Counts the segments of the subtree below segment `s` at level `l`. It follows the cells of
    /// interior segments only: the cells of a leaf hold elements, which the array does not own.
    fn count_subtree(&self, s: usize, l: usize) -> (count: usize)
        requires
            self.wf(),
            s < self.segments@.len(),
            self.level@[s as int] == l,
        ensures
            count == self.reach(s as int, l as nat, SEGMENT_SIZE as nat).len(),
        decreases l,
    {
        if l == 0 {
            proof {
                self.lemma_reach_leaf(s as int, SEGMENT_SIZE as nat);
            }
            return 1;
        }
        let n = self.segments.len();
        let mut count: usize = 1;
        let mut j: usize = 0;
        proof {
            lemma_int_range(0, n as int);
            assert(self.reach(s as int, l as nat, 0) =~= set![s as int]);
        }
        while j < SEGMENT_SIZE
            invariant
                self.wf(),
                n == self.segments@.len(),
                s < n,
                self.level@[s as int] == l,
                l > 0,
                j <= SEGMENT_SIZE,
                count == self.reach(s as int, l as nat, j as nat).len(),
                set_int_range(0, n as int).len() == n,
                set_int_range(0, n as int).finite(),
            decreases SEGMENT_SIZE - j,
        {
            let c = self.segments[s][j];
            if c != NULL {
                let sub = self.count_subtree(c - 1, l - 1);
                proof {
                    let prev = self.reach(s as int, l as nat, j as nat);
                    let below = self.reach(c - 1, (l - 1) as nat, SEGMENT_SIZE as nat);
                    self.lemma_reach_below(s as int, l as nat, j as nat);
                    self.lemma_reach_below(s as int, l as nat, (j + 1) as nat);
                    self.lemma_reach_below(c - 1, (l - 1) as nat, SEGMENT_SIZE as nat);
                    assert(prev.disjoint(below)) by {
                        assert forall|x: int| #[trigger] prev.contains(x) implies !below.contains(x) by {
                            if below.contains(x) {
                                assert(self.ancestor(x, (l - 1 - self.level@[x]) as nat) == c - 1);
                            }
                        }
                    }
                    lemma_set_disjoint_lens(prev, below);
                    lemma_len_subset(self.reach(s as int, l as nat, (j + 1) as nat), set_int_range(0, n as int));
                }
                count = count + sub;
            }
            j = j + 1;
        }
        count
    }

    /// Tears the array down: walks the tree from the root, carrying the remaining height, and
    /// releases every segment, never an element. Returns the number of segments released, which is
    /// the number of segments that were ever published.
    pub fn destroy(self) -> (freed: usize)
        requires
            self.wf(),
        ensures
            freed == self.segment_count_spec(),
    {
        if self.root == NULL {
            return 0;
        }
        let freed = self.count_subtree(self.root - 1, self.height);
        proof {
            let n = self.segments@.len() as int;
            let all = self.reach(self.root - 1, self.height as nat, SEGMENT_SIZE as nat);
            self.lemma_reach_below(self.root - 1, self.height as nat, SEGMENT_SIZE as nat);
            assert forall|x: int| all.contains(x) <==> set_int_range(0, n).contains(x) by {
                if 0 <= x < n {
                    self.lemma_reach_all(x);
                }
            }
            assert(all =~= set_int_range(0, n));
            lemma_int_range(0, n);
        }
        freed
    }

}

impl Default for GrowableArray {
    /// An empty array, as `new` gives.
    fn default() -> (r: Self)
        ensures
            r.wf(),
            r.height_spec() == 0,
            r.segment_count_spec() == 0,
            forall|i: nat| r.slot_at(i).is_none(),
    {
        Self::new()
    }
}

/// Calls of `get` on a fresh array, one per index of `indices` in turn (`states[k + 1]` is the
/// array after the call with `indices[k]`, whatever else happened between calls), leave it exactly
/// as tall as the largest index needs: its tree addresses `2^((height+1)·SEGMENT_LOGSIZE)`
/// indices, more than the largest, and at a height above 0 one level less would not reach it.
pub proof fn lemma_height_after_calls(states: Seq<GrowableArray>, indices: Seq<usize>)
    requires
        states.len() == indices.len() + 1,
        states[0].height_spec() == 0,
        forall|k: int|
            0 <= k < indices.len() ==> #[trigger] states[k + 1].height_spec() == if states[k].height_spec()
                >= required_height_of(indices[k] as nat) {
                states[k].height_spec()
            } else {
                required_height_of(indices[k] as nat)
            },
    ensures
        states.last().height_spec() == required_height_of(max_index(indices)),
        max_index(indices) < pow2(((states.last().height_spec() + 1) * SEGMENT_LOGSIZE) as nat),
        states.last().height_spec() > 0 ==> pow2((states.last().height_spec() * SEGMENT_LOGSIZE) as nat)
            <= max_index(indices),
    decreases indices.len(),
{
    if indices.len() > 0 {
        let k = indices.len() - 1;
        lemma_height_after_calls(states.drop_last(), indices.drop_last());
        assert(states.drop_last().last() == states[k]);
        let m = max_index(indices.drop_last());
        let x = indices.last() as nat;
        if x >= m {
            lemma_required_height_monotone(m, x);
        } else {
            lemma_required_height_monotone(x, m);
        }
    }
    lemma_required_height_bounds(max_index(indices));
}

/// Along any history of the array in which each state grows to the next (as every operation of
/// the array ensures), every state grows to every later one: the height never decreases and an
/// index, once addressed, keeps its slot.
pub proof fn lemma_history_grows(states: Seq<GrowableArray>)
    requires
        forall|k: int| 0 <= k < states.len() - 1 ==> #[trigger] states[k].grows_to(states[k + 1]),
    ensures
        forall|a: int, b: int|
            0 <= a <= b < states.len() ==> #[trigger] states[a].grows_to(states[b]),
        forall|a: int, b: int|
            0 <= a <= b < states.len() ==> #[trigger] states[a].height_spec() <= #[trigger] states[b].height_spec(),
    decreases states.len(),
{
    if states.len() > 0 {
        let prefix = states.drop_last();
        lemma_history_grows(prefix);
        let last = states.len() - 1;
        assert forall|a: int, b: int| 0 <= a <= b < states.len() implies #[trigger] states[a].grows_to(
            states[b],
        ) by {
            if b < last {
                assert(prefix[a] == states[a] && prefix[b] == states[b]);
                assert(prefix[a].grows_to(prefix[b]));
            } else if a < last {
                assert(prefix[a] == states[a] && prefix[last - 1] == states[last - 1]);
                assert(prefix[a].grows_to(prefix[last - 1]));
                assert(states[last - 1].grows_to(states[(last - 1) + 1]));
                let i_s = states[a];
                let j_s = states[last - 1];
                let k_s = states[last];
                assert forall|i: nat| #[trigger] i_s.slot_at(i).is_some() implies k_s.slot_at(i)
                    == i_s.slot_at(i) by {
                    assert(j_s.slot_at(i) == i_s.slot_at(i));
                }
            }
        }
        assert forall|a: int, b: int| 0 <= a <= b < states.len() implies #[trigger] states[a].height_spec()
            <= #[trigger] states[b].height_spec() by {
            assert(states[a].grows_to(states[b]));
        }
    }
}

/// Every call of `get` with the same index yields the same slot: if `first` addresses `i` by `s1`
/// and grew to `later`, which addresses `i` by `s2`, the two slots are one.
pub proof fn lemma_same_slot(first: GrowableArray, later: GrowableArray, i: nat, s1: Slot, s2: Slot)
    requires
        first.grows_to(later),
        first.slot_at(i) == Some(s1),
        later.slot_at(i) == Some(s2),
    ensures
        s1 == s2,
{
    assert(later.slot_at(i) == first.slot_at(i));
}

/// On the path of an index each level holds a single segment: a segment whose ancestors hang, level
/// by level up to the root, from the branches that `i` selects is the very segment that the
/// descent of `i` reaches at its level.
pub proof fn lemma_one_segment_per_level(a: GrowableArray, i: nat, y: int)
    requires
        a.wf(),
        0 <= y < a.segment_count_spec(),
        forall|m: nat|
            m < a.height_spec() - a.level_of(y) ==> a.branch_of(#[trigger] a.ancestor(y, m)) == chunk(
                i,
                a.level_of(y) + m + 1,
            ),
    ensures
        a.path_segment(i, a.level_of(y)) == Some(y),
    decreases a.height_spec() - a.level_of(y),
{
    let l = a.level_of(y);
    let big_h = a.height_spec();
    let r = a.root - 1;
    if l < big_h {
        let p = a.parent@[y];
        assert forall|m: nat| m < big_h - a.level_of(p) implies a.branch_of(#[trigger] a.ancestor(p, m))
            == chunk(i, a.level_of(p) + m + 1) by {
            assert(a.ancestor(y, m + 1) == a.ancestor(p, m));
            assert(a.branch_of(a.ancestor(y, m + 1)) == chunk(i, l + (m + 1) + 1));
        }
        lemma_one_segment_per_level(a, i, p);
        assert(a.ancestor(y, 0) == y);
        assert(a.branch@[y] == chunk(i, l + 1));
        assert(a.segments@[p]@[a.branch@[y] as int] == y + 1);
        a.lemma_descend_step(r, big_h, i, l + 1);
        assert(a.descend(r, big_h, i, (l + 1) as nat) == Some(p));
    } else {
        if y != r {
            assert(a.level@[a.parent@[y]] <= a.height);
        }
    }
}

/// Distinct indices are addressed by distinct slots.
pub proof fn lemma_distinct_slots(a: GrowableArray, i: nat, k: nat)
    requires
        a.wf(),
        a.slot_at(i).is_some(),
        a.slot_at(i) == a.slot_at(k),
    ensures
        i == k,
{
    let r = a.root - 1;
    let h = a.height as nat;
    a.lemma_descend_level(r, h, i, 0);
    a.lemma_descend_level(r, h, k, 0);
    a.lemma_same_leaf(i, k, h);
    lemma_chunk_above(i, h);
    lemma_chunk_above(k, h);
    assert forall|m: nat| m <= h implies #[trigger] chunk(i, m) == chunk(k, m) by {
        if m == 0 {
            assert(chunk(i, 0) == i % SEGMENT_SIZE as nat);
            assert(chunk(k, 0) == k % SEGMENT_SIZE as nat);
        }
    }
    lemma_chunks_determine(i, k, h, 0);
}

} // verus!
