//! Stable sorting by rank.
//!
//! A type is sorted by the rank its values carry: a ghost key under a total
//! order, with an executable comparison that agrees with it.

use vstd::prelude::*;
use crate::text::chars_of;

verus! {

/// A type whose values are put in order by a rank.
pub trait Ranked: Sized {
    /// What the order is on.
    type K;

    /// The rank of this value.
    spec fn rank(&self) -> Self::K;

    /// `a` may stand before `b`.
    spec fn le(a: Self::K, b: Self::K) -> bool;

    proof fn le_total(a: Self::K, b: Self::K)
        ensures
            Self::le(a, b) || Self::le(b, a),
    ;

    proof fn le_transitive(a: Self::K, b: Self::K, c: Self::K)
        requires
            Self::le(a, b),
            Self::le(b, c),
        ensures
            Self::le(a, c),
    ;

    proof fn le_antisymmetric(a: Self::K, b: Self::K)
        requires
            Self::le(a, b),
            Self::le(b, a),
        ensures
            a == b,
    ;

    /// Whether this value may stand before `other`.
    fn precedes(&self, other: &Self) -> (r: bool)
        ensures
            r == Self::le(self.rank(), other.rank()),
    ;
}

/// No element stands behind one of greater rank.
pub open spec fn in_order<T: Ranked>(s: Seq<T>) -> bool {
    forall|i: int, j: int|
        0 <= i <= j < s.len() ==> T::le((#[trigger] s[i]).rank(), (#[trigger] s[j]).rank())
}

/// The elements of `s` whose rank is `k`, in the order in which they stand.
pub open spec fn of_rank<T: Ranked>(s: Seq<T>, k: T::K) -> Seq<T> {
    s.filter(|x: T| x.rank() == k)
}

/// `to` is `from` sorted stably: it is in order, and of every rank it holds
/// the same elements in the same order.
pub open spec fn sorted_from<T: Ranked>(from: Seq<T>, to: Seq<T>) -> bool {
    &&& in_order(to)
    &&& forall|k: T::K| #[trigger] of_rank(to, k) == of_rank(from, k)
}

proof fn lemma_none_of_rank<T: Ranked>(s: Seq<T>, k: T::K)
    requires
        forall|i: int| 0 <= i < s.len() ==> (#[trigger] s[i]).rank() != k,
    ensures
        of_rank(s, k) == Seq::<T>::empty(),
    decreases s.len(),
{
    reveal(Seq::filter);
    if s.len() > 0 {
        lemma_none_of_rank(s.drop_last(), k);
        assert(s[s.len() - 1].rank() != k);
    }
}

proof fn lemma_of_rank_insert<T: Ranked>(s: Seq<T>, at: int, x: T, k: T::K)
    requires
        0 <= at <= s.len(),
        forall|i: int| at <= i < s.len() ==> (#[trigger] s[i]).rank() != x.rank(),
    ensures
        of_rank(s.insert(at, x), k) == of_rank(s.push(x), k),
{
    let p = |y: T| y.rank() == k;
    let a = s.take(at);
    let b = s.skip(at);
    let one = seq![x];
    assert(s =~= a + b);
    assert(s.insert(at, x) =~= a + one + b);
    assert(s.push(x) =~= a + b + one);
    Seq::filter_distributes_over_add(a + one, b, p);
    Seq::filter_distributes_over_add(a, one, p);
    Seq::filter_distributes_over_add(a + b, one, p);
    Seq::filter_distributes_over_add(a, b, p);
    if x.rank() == k {
        assert forall|i: int| 0 <= i < b.len() implies (#[trigger] b[i]).rank() != k by {
            assert(b[i] == s[at + i]);
        }
        lemma_none_of_rank(b, k);
        assert(b.filter(p) =~= Seq::<T>::empty());
    } else {
        assert forall|i: int| 0 <= i < one.len() implies (#[trigger] one[i]).rank() != k by {}
        lemma_none_of_rank(one, k);
        assert(one.filter(p) =~= Seq::<T>::empty());
    }
    assert(a.filter(p) + one.filter(p) + b.filter(p) =~= a.filter(p) + b.filter(p) + one.filter(p));
}

/// The first position of `sorted` whose element must stand behind `x`.
fn slot_for<T: Ranked>(sorted: &Vec<T>, x: &T) -> (at: usize)
    requires
        in_order(sorted@),
    ensures
        at <= sorted@.len(),
        forall|i: int| 0 <= i < at ==> T::le((#[trigger] sorted@[i]).rank(), x.rank()),
        forall|i: int| at <= i < sorted@.len() ==> !T::le((#[trigger] sorted@[i]).rank(), x.rank()),
{
    let mut lo: usize = 0;
    let mut hi: usize = sorted.len();
    while lo < hi
        invariant
            in_order(sorted@),
            lo <= hi <= sorted@.len(),
            forall|i: int| 0 <= i < lo ==> T::le((#[trigger] sorted@[i]).rank(), x.rank()),
            forall|i: int|
                hi <= i < sorted@.len() ==> !T::le((#[trigger] sorted@[i]).rank(), x.rank()),
        decreases hi - lo,
    {
        let mid: usize = lo + (hi - lo) / 2;
        if sorted[mid].precedes(x) {
            proof {
                assert forall|i: int| 0 <= i < mid + 1 implies T::le(
                    (#[trigger] sorted@[i]).rank(),
                    x.rank(),
                ) by {
                    T::le_transitive(sorted@[i].rank(), sorted@[mid as int].rank(), x.rank());
                }
            }
            lo = mid + 1;
        } else {
            proof {
                assert forall|i: int| mid <= i < sorted@.len() implies !T::le(
                    (#[trigger] sorted@[i]).rank(),
                    x.rank(),
                ) by {
                    if T::le(sorted@[i].rank(), x.rank()) {
                        T::le_transitive(sorted@[mid as int].rank(), sorted@[i].rank(), x.rank());
                    }
                }
            }
            hi = mid;
        }
    }
    lo
}

/// Sorts `v` by rank; elements of equal rank keep their order.
pub fn sort<T: Ranked>(v: Vec<T>) -> (r: Vec<T>)
    ensures
        sorted_from(v@, r@),
{
    let mut out: Vec<T> = Vec::new();
    let ghost full = v@;
    assert(full.take(0) =~= Seq::<T>::empty());
    for x in it: v.into_iter()
        invariant
            it.seq() == full,
            sorted_from(full.take(it.index() as int), out@),
    {
        let ghost done = full.take(it.index() as int);
        let ghost before = out@;
        let at = slot_for(&out, &x);
        out.insert(at, x);
        proof {
            assert(full.take(it.index() + 1) =~= done.push(x));
            assert forall|i: int| at <= i < before.len() implies (#[trigger] before[i]).rank()
                != x.rank() by {
                T::le_total(before[i].rank(), x.rank());
            }
            assert forall|k: T::K| #[trigger] of_rank(out@, k) == of_rank(done.push(x), k) by {
                lemma_of_rank_insert(before, at as int, x, k);
                lemma_of_rank_push(before, done, x, k);
            }
            assert forall|i: int, j: int| 0 <= i <= j < out@.len() implies T::le(
                (#[trigger] out@[i]).rank(),
                (#[trigger] out@[j]).rank(),
            ) by {
                T::le_total(x.rank(), x.rank());
                if i == at && j > at {
                    T::le_total(before[j - 1].rank(), x.rank());
                }
                if i < at && j == at {
                    assert(before[i] == out@[i]);
                }
                if i < at && j > at {
                    assert(T::le(before[i].rank(), before[j - 1].rank()));
                }
                if i > at {
                    assert(T::le(before[i - 1].rank(), before[j - 1].rank()));
                }
                if j < at {
                    assert(T::le(before[i].rank(), before[j].rank()));
                }
            }
        }
    }
    assert(full.take(full.len() as int) =~= full);
    out
}

proof fn lemma_of_rank_push<T: Ranked>(a: Seq<T>, b: Seq<T>, x: T, k: T::K)
    requires
        of_rank(a, k) == of_rank(b, k),
    ensures
        of_rank(a.push(x), k) == of_rank(b.push(x), k),
{
    reveal(Seq::filter);
    assert(a.push(x).drop_last() =~= a);
    assert(b.push(x).drop_last() =~= b);
}

impl Ranked for char {
    type K = char;

    open spec fn rank(&self) -> char {
        *self
    }

    open spec fn le(a: char, b: char) -> bool {
        a <= b
    }

    proof fn le_total(a: char, b: char) {
    }

    proof fn le_transitive(a: char, b: char, c: char) {
    }

    proof fn le_antisymmetric(a: char, b: char) {
    }

    fn precedes(&self, other: &Self) -> (r: bool) {
        *self <= *other
    }
}

impl Ranked for u8 {
    type K = u8;

    open spec fn rank(&self) -> u8 {
        *self
    }

    open spec fn le(a: u8, b: u8) -> bool {
        a <= b
    }

    proof fn le_total(a: u8, b: u8) {
    }

    proof fn le_transitive(a: u8, b: u8, c: u8) {
    }

    proof fn le_antisymmetric(a: u8, b: u8) {
    }

    fn precedes(&self, other: &Self) -> (r: bool) {
        *self <= *other
    }
}

impl Ranked for i32 {
    type K = i32;

    open spec fn rank(&self) -> i32 {
        *self
    }

    open spec fn le(a: i32, b: i32) -> bool {
        a <= b
    }

    proof fn le_total(a: i32, b: i32) {
    }

    proof fn le_transitive(a: i32, b: i32, c: i32) {
    }

    proof fn le_antisymmetric(a: i32, b: i32) {
    }

    fn precedes(&self, other: &Self) -> (r: bool) {
        *self <= *other
    }
}

/// A reference ranks as what it refers to.
impl<'a, A: Ranked> Ranked for &'a A {
    type K = A::K;

    open spec fn rank(&self) -> A::K {
        (**self).rank()
    }

    open spec fn le(a: A::K, b: A::K) -> bool {
        A::le(a, b)
    }

    proof fn le_total(a: A::K, b: A::K) {
        A::le_total(a, b);
    }

    proof fn le_transitive(a: A::K, b: A::K, c: A::K) {
        A::le_transitive(a, b, c);
    }

    proof fn le_antisymmetric(a: A::K, b: A::K) {
        A::le_antisymmetric(a, b);
    }

    fn precedes(&self, other: &Self) -> (r: bool) {
        (**self).precedes(*other)
    }
}

/// Lexicographic order: the first place where two sequences differ decides,
/// and a proper prefix stands before what it begins.
pub open spec fn lex_le<A: Ranked>(a: Seq<A::K>, b: Seq<A::K>) -> bool
    decreases a.len(),
{
    if a.len() == 0 {
        true
    } else if b.len() == 0 {
        false
    } else if a[0] == b[0] {
        lex_le::<A>(a.skip(1), b.skip(1))
    } else {
        A::le(a[0], b[0])
    }
}

pub proof fn lex_total<A: Ranked>(a: Seq<A::K>, b: Seq<A::K>)
    ensures
        lex_le::<A>(a, b) || lex_le::<A>(b, a),
    decreases a.len(),
{
    if a.len() > 0 && b.len() > 0 {
        if a[0] == b[0] {
            lex_total::<A>(a.skip(1), b.skip(1));
        } else {
            A::le_total(a[0], b[0]);
        }
    }
}

pub proof fn lex_transitive<A: Ranked>(a: Seq<A::K>, b: Seq<A::K>, c: Seq<A::K>)
    requires
        lex_le::<A>(a, b),
        lex_le::<A>(b, c),
    ensures
        lex_le::<A>(a, c),
    decreases a.len(),
{
    if a.len() > 0 && b.len() > 0 && c.len() > 0 {
        if a[0] == b[0] && b[0] == c[0] {
            lex_transitive::<A>(a.skip(1), b.skip(1), c.skip(1));
        } else if a[0] != b[0] && b[0] != c[0] {
            A::le_transitive(a[0], b[0], c[0]);
            if a[0] == c[0] {
                A::le_antisymmetric(a[0], b[0]);
            }
        }
    }
}

pub proof fn lex_antisymmetric<A: Ranked>(a: Seq<A::K>, b: Seq<A::K>)
    requires
        lex_le::<A>(a, b),
        lex_le::<A>(b, a),
    ensures
        a == b,
    decreases a.len(),
{
    if a.len() > 0 && b.len() > 0 {
        if a[0] == b[0] {
            lex_antisymmetric::<A>(a.skip(1), b.skip(1));
            assert(a =~= seq![a[0]] + a.skip(1));
            assert(b =~= seq![b[0]] + b.skip(1));
        } else {
            A::le_antisymmetric(a[0], b[0]);
        }
    } else {
        assert(a =~= b);
    }
}

/// Dropping a common beginning does not change the order.
proof fn lemma_lex_common<A: Ranked>(a: Seq<A::K>, b: Seq<A::K>, n: int)
    requires
        0 <= n <= a.len(),
        n <= b.len(),
        forall|i: int| 0 <= i < n ==> a[i] == b[i],
    ensures
        lex_le::<A>(a, b) == lex_le::<A>(a.skip(n), b.skip(n)),
    decreases n,
{
    if n == 0 {
        assert(a.skip(0) =~= a);
        assert(b.skip(0) =~= b);
    } else {
        assert(a[0] == b[0]);
        lemma_lex_common::<A>(a.skip(1), b.skip(1), n - 1);
        assert(a.skip(1).skip(n - 1) =~= a.skip(n));
        assert(b.skip(1).skip(n - 1) =~= b.skip(n));
    }
}

/// `a` stands strictly before `b`: it is a proper beginning of it, or smaller
/// at the first place where they differ.
pub open spec fn text_before(a: Seq<char>, b: Seq<char>) -> bool {
    exists|n: int| #[trigger] parts_at(a, b, n)
}

/// `a` and `b` agree before `n`, where `a` ends or is smaller.
pub open spec fn parts_at(a: Seq<char>, b: Seq<char>, n: int) -> bool {
    &&& 0 <= n <= a.len()
    &&& n < b.len()
    &&& forall|i: int| 0 <= i < n ==> a[i] == b[i]
    &&& n == a.len() || a[n] < b[n]
}

/// The order of texts goes by the first place where they differ.
pub proof fn law_texts_are_ordered_by_first_difference(a: Seq<char>, b: Seq<char>)
    ensures
        lex_le::<char>(a, b) && a != b <==> text_before(a, b),
    decreases a.len(),
{
    if a.len() == 0 {
        if b.len() == 0 {
            assert(a =~= b);
        } else {
            assert(parts_at(a, b, 0));
        }
    } else if b.len() > 0 {
        if a[0] == b[0] {
            let x = a.skip(1);
            let y = b.skip(1);
            law_texts_are_ordered_by_first_difference(x, y);
            assert(a =~= seq![a[0]] + x);
            assert(b =~= seq![b[0]] + y);
            if text_before(x, y) {
                let n = choose|n: int| #[trigger] parts_at(x, y, n);
                assert forall|i: int| 0 <= i < n + 1 implies a[i] == b[i] by {
                    if i > 0 {
                        assert(x[i - 1] == y[i - 1]);
                    }
                }
                assert(parts_at(a, b, n + 1));
            }
            if text_before(a, b) {
                let n = choose|n: int| #[trigger] parts_at(a, b, n);
                assert(parts_at(x, y, n - 1));
            }
        } else {
            if a[0] <= b[0] {
                assert(parts_at(a, b, 0));
            }
            if text_before(a, b) {
                let n = choose|n: int| #[trigger] parts_at(a, b, n);
                assert(n == 0);
            }
        }
    }
}

impl<A: Ranked> Ranked for Vec<A> {
    type K = Seq<A::K>;

    open spec fn rank(&self) -> Seq<A::K> {
        Seq::new(self@.len(), |i: int| self@[i].rank())
    }

    open spec fn le(a: Seq<A::K>, b: Seq<A::K>) -> bool {
        lex_le::<A>(a, b)
    }

    proof fn le_total(a: Seq<A::K>, b: Seq<A::K>) {
        lex_total::<A>(a, b);
    }

    proof fn le_transitive(a: Seq<A::K>, b: Seq<A::K>, c: Seq<A::K>) {
        lex_transitive::<A>(a, b, c);
    }

    proof fn le_antisymmetric(a: Seq<A::K>, b: Seq<A::K>) {
        lex_antisymmetric::<A>(a, b);
    }

    fn precedes(&self, other: &Self) -> (r: bool) {
        let ghost a = self.rank();
        let ghost b = other.rank();
        let mut i: usize = 0;
        while i < self.len() && i < other.len()
            invariant
                a == self.rank(),
                b == other.rank(),
                i <= self@.len(),
                i <= other@.len(),
                forall|k: int| 0 <= k < i ==> a[k] == b[k],
            decreases self@.len() - i,
        {
            let forth = self[i].precedes(&other[i]);
            let back = other[i].precedes(&self[i]);
            proof {
                lemma_lex_common::<A>(a, b, i as int);
                A::le_total(a[i as int], b[i as int]);
                if forth && back {
                    A::le_antisymmetric(a[i as int], b[i as int]);
                }
            }
            if !(forth && back) {
                return forth;
            }
            i = i + 1;
        }
        proof {
            lemma_lex_common::<A>(a, b, i as int);
        }
        i == self.len()
    }
}

impl Ranked for String {
    type K = Seq<char>;

    open spec fn rank(&self) -> Seq<char> {
        self@
    }

    open spec fn le(a: Seq<char>, b: Seq<char>) -> bool {
        lex_le::<char>(a, b)
    }

    proof fn le_total(a: Seq<char>, b: Seq<char>) {
        lex_total::<char>(a, b);
    }

    proof fn le_transitive(a: Seq<char>, b: Seq<char>, c: Seq<char>) {
        lex_transitive::<char>(a, b, c);
    }

    proof fn le_antisymmetric(a: Seq<char>, b: Seq<char>) {
        lex_antisymmetric::<char>(a, b);
    }

    fn precedes(&self, other: &Self) -> (r: bool) {
        let a = chars_of(self.as_str());
        let b = chars_of(other.as_str());
        assert(a.rank() =~= self@);
        assert(b.rank() =~= other@);
        a.precedes(&b)
    }
}

impl<A: Ranked, B: Ranked> Ranked for (A, B) {
    type K = (A::K, B::K);

    open spec fn rank(&self) -> (A::K, B::K) {
        (self.0.rank(), self.1.rank())
    }

    open spec fn le(a: (A::K, B::K), b: (A::K, B::K)) -> bool {
        if a.0 == b.0 {
            B::le(a.1, b.1)
        } else {
            A::le(a.0, b.0)
        }
    }

    proof fn le_total(a: (A::K, B::K), b: (A::K, B::K)) {
        A::le_total(a.0, b.0);
        B::le_total(a.1, b.1);
    }

    proof fn le_transitive(a: (A::K, B::K), b: (A::K, B::K), c: (A::K, B::K)) {
        if a.0 == b.0 && b.0 == c.0 {
            B::le_transitive(a.1, b.1, c.1);
        } else if a.0 != b.0 && b.0 != c.0 {
            A::le_transitive(a.0, b.0, c.0);
            if a.0 == c.0 {
                A::le_antisymmetric(a.0, b.0);
            }
        }
    }

    proof fn le_antisymmetric(a: (A::K, B::K), b: (A::K, B::K)) {
        if a.0 == b.0 {
            B::le_antisymmetric(a.1, b.1);
        } else {
            A::le_antisymmetric(a.0, b.0);
        }
    }

    fn precedes(&self, other: &Self) -> (r: bool) {
        let forth = self.0.precedes(&other.0);
        let back = other.0.precedes(&self.0);
        proof {
            A::le_total(self.0.rank(), other.0.rank());
            if forth && back {
                A::le_antisymmetric(self.0.rank(), other.0.rank());
            }
        }
        if forth && back {
            self.1.precedes(&other.1)
        } else {
            forth
        }
    }
}

/// `s` holds an element of rank `k`.
pub open spec fn has_rank<T: Ranked>(s: Seq<T>, k: T::K) -> bool {
    exists|i: int| 0 <= i < s.len() && (#[trigger] s[i]).rank() == k
}

proof fn lemma_has_rank_is_some_of_rank<T: Ranked>(s: Seq<T>, k: T::K)
    ensures
        has_rank(s, k) <==> of_rank(s, k).len() > 0,
    decreases s.len(),
{
    reveal(Seq::filter);
    if s.len() > 0 {
        let front = s.drop_last();
        lemma_has_rank_is_some_of_rank(front, k);
        if has_rank(front, k) {
            let i = choose|i: int| 0 <= i < front.len() && (#[trigger] front[i]).rank() == k;
            assert(s[i] == front[i]);
        }
        if s.last().rank() == k {
            assert(s[s.len() - 1].rank() == k);
        } else if has_rank(s, k) {
            let i = choose|i: int| 0 <= i < s.len() && (#[trigger] s[i]).rank() == k;
            assert(front[i] == s[i]);
        }
    }
}

/// Sorting keeps every rank: one stands in the result exactly when it stood in
/// what was sorted.
pub proof fn law_sorting_keeps_ranks<T: Ranked>(from: Seq<T>, to: Seq<T>, k: T::K)
    requires
        sorted_from(from, to),
    ensures
        has_rank(to, k) <==> has_rank(from, k),
{
    lemma_has_rank_is_some_of_rank(from, k);
    lemma_has_rank_is_some_of_rank(to, k);
    assert(of_rank(to, k) == of_rank(from, k));
}

/// Sorting keeps every element: one stands in the result exactly when it stood
/// in what was sorted.
pub proof fn law_sorting_keeps_elements<T: Ranked>(from: Seq<T>, to: Seq<T>, x: T)
    requires
        sorted_from(from, to),
    ensures
        to.contains(x) <==> from.contains(x),
{
    assert(of_rank(to, x.rank()) == of_rank(from, x.rank()));
    lemma_contains_of_rank(from, x);
    lemma_contains_of_rank(to, x);
}

proof fn lemma_count_of_rank<T: Ranked>(s: Seq<T>, x: T)
    ensures
        s.to_multiset().count(x) == of_rank(s, x.rank()).to_multiset().count(x),
    decreases s.len(),
{
    broadcast use vstd::seq_lib::group_to_multiset_ensures;

    reveal(Seq::filter);
    if s.len() > 0 {
        let front = s.drop_last();
        lemma_count_of_rank(front, x);
        assert(s =~= front.push(s.last()));
    }
}

/// Sorting is a permutation: every element stands in the result as often as it
/// stood in what was sorted.
pub proof fn law_sorting_permutes<T: Ranked>(from: Seq<T>, to: Seq<T>)
    requires
        sorted_from(from, to),
    ensures
        to.to_multiset() == from.to_multiset(),
        to.len() == from.len(),
{
    broadcast use vstd::seq_lib::group_to_multiset_ensures;

    assert forall|x: T| #[trigger] to.to_multiset().count(x) == from.to_multiset().count(x) by {
        lemma_count_of_rank(from, x);
        lemma_count_of_rank(to, x);
        assert(of_rank(to, x.rank()) == of_rank(from, x.rank()));
    }
    assert(to.to_multiset() =~= from.to_multiset());
    assert(to.len() == to.to_multiset().len());
    assert(from.len() == from.to_multiset().len());
}

proof fn lemma_of_rank_counts<T: Ranked>(s: Seq<T>, k: T::K)
    ensures
        of_rank(s, k).len() > 0 ==> exists|i: int|
            0 <= i < s.len() && (#[trigger] s[i]).rank() == k,
        of_rank(s, k).len() > 1 ==> exists|i: int, j: int|
            0 <= i < j < s.len() && (#[trigger] s[i]).rank() == k && (#[trigger] s[j]).rank() == k,
        forall|i: int|
            0 <= i < s.len() && (#[trigger] s[i]).rank() == k ==> of_rank(s, k).len() > 0,
        forall|i: int, j: int|
            0 <= i < j < s.len() && (#[trigger] s[i]).rank() == k && (#[trigger] s[j]).rank() == k
                ==> of_rank(s, k).len() > 1,
    decreases s.len(),
{
    reveal(Seq::filter);
    if s.len() > 0 {
        let front = s.drop_last();
        let last = s.len() - 1;
        lemma_of_rank_counts(front, k);
        assert forall|i: int| 0 <= i < s.len() && (#[trigger] s[i]).rank() == k implies of_rank(
            s,
            k,
        ).len() > 0 by {
            if i < last {
                assert(front[i] == s[i]);
            }
        }
        assert forall|i: int, j: int|
            0 <= i < j < s.len() && (#[trigger] s[i]).rank() == k && (#[trigger] s[j]).rank()
                == k implies of_rank(s, k).len() > 1 by {
            assert(front[i] == s[i]);
            if j < last {
                assert(front[j] == s[j]);
            }
        }
        if of_rank(front, k).len() > 0 {
            let i = choose|i: int| 0 <= i < front.len() && (#[trigger] front[i]).rank() == k;
            assert(s[i].rank() == k);
        }
        if of_rank(s, k).len() > 0 && s[last].rank() != k {
            assert(of_rank(front, k).len() > 0);
        }
        if of_rank(front, k).len() > 1 {
            let (i, j) = choose|i: int, j: int|
                0 <= i < j < front.len() && (#[trigger] front[i]).rank() == k && (
                #[trigger] front[j]).rank() == k;
            assert(s[i].rank() == k && s[j].rank() == k);
        } else if of_rank(s, k).len() > 1 {
            let i = choose|i: int| 0 <= i < front.len() && (#[trigger] front[i]).rank() == k;
            assert(s[i].rank() == k && s[last].rank() == k);
        }
    }
}

/// Where no two elements share a rank, sorting puts them in strict order.
pub proof fn law_sorting_keeps_apart<T: Ranked>(from: Seq<T>, to: Seq<T>)
    requires
        sorted_from(from, to),
        forall|i: int, j: int|
            0 <= i < j < from.len() ==> (#[trigger] from[i]).rank() != (#[trigger] from[j]).rank(),
    ensures
        strictly_in_order(to),
{
    assert forall|i: int, j: int| 0 <= i < j < to.len() implies (#[trigger] to[i]).rank() != (
    #[trigger] to[j]).rank() by {
        let k = to[i].rank();
        if k == to[j].rank() {
            lemma_of_rank_counts(to, k);
            lemma_of_rank_counts(from, k);
            assert(of_rank(to, k) == of_rank(from, k));
        }
    }
}

proof fn lemma_contains_of_rank<T: Ranked>(s: Seq<T>, x: T)
    ensures
        s.contains(x) <==> of_rank(s, x.rank()).contains(x),
    decreases s.len(),
{
    reveal(Seq::filter);
    let sub = of_rank(s, x.rank());
    if s.len() > 0 {
        let front = s.drop_last();
        let front_sub = of_rank(front, x.rank());
        lemma_contains_of_rank(front, x);
        if front.contains(x) {
            let i = choose|i: int| 0 <= i < front.len() && front[i] == x;
            assert(s[i] == x);
            let j = choose|j: int| 0 <= j < front_sub.len() && front_sub[j] == x;
            assert(sub[j] == x);
        }
        if s.last() == x {
            assert(s[s.len() - 1] == x);
            assert(sub[sub.len() - 1] == x);
        } else {
            if s.contains(x) {
                let i = choose|i: int| 0 <= i < s.len() && s[i] == x;
                assert(front[i] == x);
            }
            if sub.contains(x) {
                let j = choose|j: int| 0 <= j < sub.len() && sub[j] == x;
                assert(front_sub[j] == x);
            }
        }
    }
}

proof fn lemma_of_rank_last<T: Ranked>(s: Seq<T>, k: T::K)
    requires
        s.len() > 0,
    ensures
        s.last().rank() == k ==> of_rank(s, k).len() > 0 && of_rank(s, k).last() == s.last()
            && of_rank(s.drop_last(), k) == of_rank(s, k).drop_last(),
        s.last().rank() != k ==> of_rank(s.drop_last(), k) == of_rank(s, k),
{
    reveal(Seq::filter);
    assert(of_rank(s, k).drop_last() =~= of_rank(s.drop_last(), k) || s.last().rank() != k);
}

/// A stable sort has one outcome: whatever is sorted from the same elements is
/// the same sequence.
pub proof fn law_sorting_has_one_outcome<T: Ranked>(from: Seq<T>, a: Seq<T>, b: Seq<T>)
    requires
        sorted_from(from, a),
        sorted_from(from, b),
    ensures
        a == b,
{
    assert forall|k: T::K| #[trigger] of_rank(a, k) == of_rank(b, k) by {
        assert(of_rank(a, k) == of_rank(from, k));
    }
    lemma_same_ranks_same_order(a, b);
}

proof fn lemma_same_ranks_same_order<T: Ranked>(a: Seq<T>, b: Seq<T>)
    requires
        in_order(a),
        in_order(b),
        forall|k: T::K| #[trigger] of_rank(a, k) == of_rank(b, k),
    ensures
        a == b,
    decreases a.len(),
{
    if a.len() == 0 {
        if b.len() > 0 {
            let k = b[0].rank();
            lemma_has_rank_is_some_of_rank(a, k);
            lemma_has_rank_is_some_of_rank(b, k);
            assert(has_rank(b, k));
            assert(of_rank(a, k) == of_rank(b, k));
        }
        assert(a =~= b);
    } else {
        let ka = a.last().rank();
        lemma_has_rank_is_some_of_rank(a, ka);
        lemma_has_rank_is_some_of_rank(b, ka);
        assert(a[a.len() - 1].rank() == ka);
        assert(of_rank(a, ka) == of_rank(b, ka));
        let i = choose|i: int| 0 <= i < b.len() && (#[trigger] b[i]).rank() == ka;
        let kb = b.last().rank();
        assert(b[b.len() - 1].rank() == kb);
        lemma_has_rank_is_some_of_rank(a, kb);
        lemma_has_rank_is_some_of_rank(b, kb);
        assert(of_rank(a, kb) == of_rank(b, kb));
        let j = choose|j: int| 0 <= j < a.len() && (#[trigger] a[j]).rank() == kb;
        assert(T::le(b[i].rank(), b[b.len() - 1].rank()));
        assert(T::le(a[j].rank(), a[a.len() - 1].rank()));
        T::le_antisymmetric(ka, kb);
        lemma_of_rank_last(a, ka);
        lemma_of_rank_last(b, ka);
        let front_a = a.drop_last();
        let front_b = b.drop_last();
        assert forall|k: T::K| #[trigger] of_rank(front_a, k) == of_rank(front_b, k) by {
            lemma_of_rank_last(a, k);
            lemma_of_rank_last(b, k);
            assert(of_rank(a, k) == of_rank(b, k));
        }
        assert(in_order(front_a)) by {
            assert forall|x: int, y: int| 0 <= x <= y < front_a.len() implies T::le(
                (#[trigger] front_a[x]).rank(),
                (#[trigger] front_a[y]).rank(),
            ) by {
                assert(front_a[x] == a[x] && front_a[y] == a[y]);
            }
        }
        assert(in_order(front_b)) by {
            assert forall|x: int, y: int| 0 <= x <= y < front_b.len() implies T::le(
                (#[trigger] front_b[x]).rank(),
                (#[trigger] front_b[y]).rank(),
            ) by {
                assert(front_b[x] == b[x] && front_b[y] == b[y]);
            }
        }
        lemma_same_ranks_same_order(front_a, front_b);
        assert(a =~= front_a.push(a.last()));
        assert(b =~= front_b.push(b.last()));
    }
}

/// The elements of `s` stand in order, each rank once.
pub open spec fn strictly_in_order<T: Ranked>(s: Seq<T>) -> bool {
    &&& in_order(s)
    &&& forall|i: int, j: int|
        0 <= i < j < s.len() ==> (#[trigger] s[i]).rank() != (#[trigger] s[j]).rank()
}

/// Position `j` of `s` holds the first element of its rank.
pub open spec fn first_of_rank<T: Ranked>(s: Seq<T>, j: int) -> bool {
    &&& 0 <= j < s.len()
    &&& forall|h: int| 0 <= h < j ==> (#[trigger] s[h]).rank() != s[j].rank()
}

/// `x` is the first element of its rank in `s`.
pub open spec fn leads_rank<T: Ranked>(s: Seq<T>, x: T) -> bool {
    exists|j: int| #[trigger] first_of_rank(s, j) && s[j] == x
}

/// Keeps the first element of every rank of a vector that is in order.
pub fn dedup<T: Ranked>(v: Vec<T>) -> (r: Vec<T>)
    requires
        in_order(v@),
    ensures
        strictly_in_order(r@),
        forall|k: T::K| #[trigger] has_rank(r@, k) <==> has_rank(v@, k),
        forall|i: int| 0 <= i < r@.len() ==> leads_rank(v@, #[trigger] r@[i]),
{
    let ghost full = v@;
    let mut out: Vec<T> = Vec::new();
    let ghost mut kept: Seq<int> = Seq::empty();
    for x in it: v.into_iter()
        invariant
            it.seq() == full,
            in_order(full),
            strictly_in_order(out@),
            forall|h: int| 0 <= h < it.index() ==> has_rank(out@, (#[trigger] full[h]).rank()),
            kept.len() == out@.len(),
            forall|i: int|
                0 <= i < out@.len() ==> 0 <= #[trigger] kept[i] < it.index() && first_of_rank(
                    full,
                    kept[i],
                ) && full[kept[i]] == out@[i],
    {
        let ghost n = it.index() as int;
        let ghost before = out@;
        assert(x == full[n]);
        let repeats = if out.len() == 0 {
            false
        } else {
            // Everything before is at most `x`, so a repeat is its equal.
            x.precedes(&out[out.len() - 1])
        };
        proof {
            assert forall|i: int| 0 <= i < before.len() implies T::le(
                (#[trigger] before[i]).rank(),
                x.rank(),
            ) by {
                assert(T::le(full[kept[i]].rank(), full[n].rank()));
            }
            if repeats {
                let last = before[before.len() - 1].rank();
                T::le_antisymmetric(last, x.rank());
                assert(has_rank(before, x.rank()));
            } else if has_rank(before, x.rank()) {
                let i = choose|i: int|
                    0 <= i < before.len() && (#[trigger] before[i]).rank() == x.rank();
                let last = before[before.len() - 1].rank();
                assert(T::le(before[i].rank(), last));
                assert(false);
            }
        }
        if !repeats {
            out.push(x);
            proof {
                kept = kept.push(n);
                assert forall|h: int| 0 <= h < n + 1 implies has_rank(
                    out@,
                    (#[trigger] full[h]).rank(),
                ) by {
                    if h < n {
                        assert(has_rank(before, full[h].rank()));
                        let i = choose|i: int|
                            0 <= i < before.len() && (#[trigger] before[i]).rank()
                                == full[h].rank();
                        assert(out@[i] == before[i]);
                    } else {
                        assert(out@[before.len() as int] == full[n]);
                    }
                }
                assert forall|h: int| 0 <= h < n implies (#[trigger] full[h]).rank()
                    != full[n].rank() by {
                    assert(has_rank(before, full[h].rank()));
                }
                T::le_total(x.rank(), x.rank());
            }
        }
    }
    proof {
        assert forall|k: T::K| #[trigger] has_rank(out@, k) <==> has_rank(full, k) by {
            if has_rank(full, k) {
                let h = choose|h: int| 0 <= h < full.len() && (#[trigger] full[h]).rank() == k;
                assert(has_rank(out@, full[h].rank()));
            }
            if has_rank(out@, k) {
                let i = choose|i: int| 0 <= i < out@.len() && (#[trigger] out@[i]).rank() == k;
                assert(full[kept[i]].rank() == k);
            }
        }
        assert forall|i: int| 0 <= i < out@.len() implies leads_rank(full, #[trigger] out@[i]) by {
            assert(first_of_rank(full, kept[i]));
        }
    }
    out
}

} // verus!
