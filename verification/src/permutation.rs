use vstd::prelude::*;
use vstd::set_lib::*;
use vstd::relations::injective_on;
use crate::text::{trim, trim_start, trim_end, is_ws, all_digits, digits_value, digit_value, digit_char, signed_value, split_on, parsed_i32, trim_chars, slice_of, parse_i32, split_chars, views, chars_of, contains_char, decimal, push_decimal, push_all, string_from_chars};

verus! {

/// The largest permutation size whose elements and indices stay well inside `i32`.
pub const MAX_PERMUTATION_SIZE: usize = 0x3fff_ffff;

/// A permutation of the elements `1..=size`. A reversing permutation also acts on the
/// negated elements `-size..=-1` (and on `0`), and is stored over all of `-size..=size`.
#[derive(Clone, Debug, PartialEq, Eq)]
pub struct Permutation {
    size: usize,
    mapping: Vec<i32>,
    reverses: bool,
}

/// The mathematical content of a permutation.
pub ghost struct PermutationView {
    pub size: nat,
    pub mapping: Seq<i32>,
    pub reverses: bool,
}

impl PermutationView {
    /// Position of element `e` in the mapping table.
    pub open spec fn idx(self, e: int) -> int {
        if self.reverses {
            e + self.size
        } else {
            e - 1
        }
    }

    /// The element stored at position `i` of the mapping table.
    pub open spec fn elem_at(self, i: int) -> int {
        if self.reverses {
            i - self.size
        } else {
            i + 1
        }
    }

    pub open spec fn in_bounds(self, e: int) -> bool {
        0 <= self.idx(e) < self.mapping.len()
    }

    /// The image of `e`.
    pub open spec fn app(self, e: int) -> int {
        self.mapping[self.idx(e)] as int
    }

    /// The elements that the permutation acts on.
    pub open spec fn is_elem(self, e: int) -> bool {
        if self.reverses {
            -(self.size as int) <= e <= self.size
        } else {
            1 <= e <= self.size
        }
    }

    pub open spec fn table_len(self) -> nat {
        if self.reverses {
            2 * self.size + 1
        } else {
            self.size
        }
    }

    /// The table has one entry per element and the size keeps all arithmetic inside `i32`.
    pub open spec fn shaped(self) -> bool {
        &&& self.size <= MAX_PERMUTATION_SIZE
        &&& self.mapping.len() == self.table_len()
    }

    /// The sizes keep the element arithmetic inside `i32`.
    pub open spec fn sane(self) -> bool {
        &&& self.size <= MAX_PERMUTATION_SIZE
        &&& self.mapping.len() <= 2 * MAX_PERMUTATION_SIZE + 1
    }

    /// Every element is mapped to an element.
    pub open spec fn in_range(self) -> bool {
        forall|e: int| #[trigger] self.is_elem(e) ==> self.is_elem(self.app(e))
    }

    /// `e` moved `k` times.
    pub open spec fn iter(self, e: int, k: nat) -> int
        decreases k,
    {
        if k == 0 {
            e
        } else {
            self.app(self.iter(e, (k - 1) as nat))
        }
    }

    /// `e` comes back to itself after some number of steps that fits in `usize`.
    pub open spec fn closes(self, e: int) -> bool {
        exists|k: nat| 1 <= k <= usize::MAX && #[trigger] self.iter(e, k) == e
    }

    /// `k` is the length of the cycle through `e`.
    pub open spec fn is_cycle_len(self, e: int, k: nat) -> bool {
        &&& k >= 1
        &&& self.iter(e, k) == e
        &&& forall|j: nat| 1 <= j < k ==> #[trigger] self.iter(e, j) != e
    }

    /// The length of the cycle through `e`.
    pub open spec fn cycle_len(self, e: int) -> nat {
        choose|k: nat| self.is_cycle_len(e, k)
    }

    /// The first position at or after `i` that holds `x`, or -1.
    pub open spec fn find_from(s: Seq<i32>, x: int, i: int) -> int
        decreases s.len() - i,
    {
        if i < 0 || i >= s.len() {
            -1
        } else if s[i] == x {
            i
        } else {
            Self::find_from(s, x, i + 1)
        }
    }

    /// The last position before `i` that holds `x`, or -1.
    pub open spec fn find_last_before(s: Seq<i32>, x: int, i: int) -> int
        decreases i,
    {
        if i <= 0 || i > s.len() {
            -1
        } else if s[i - 1] == x {
            i - 1
        } else {
            Self::find_last_before(s, x, i - 1)
        }
    }

    /// What `map_inverse` gives: the first element that maps to `e`, or 0.
    pub open spec fn inv_app(self, e: int) -> int {
        let p = Self::find_from(self.mapping, e, 0);
        if p < 0 {
            0
        } else {
            self.elem_at(p)
        }
    }

    /// `e` moved backwards `k` times with `inv_app`.
    pub open spec fn inv_iter(self, e: int, k: nat) -> int
        decreases k,
    {
        if k == 0 {
            e
        } else {
            self.inv_app(self.inv_iter(e, (k - 1) as nat))
        }
    }

    /// The mapping is one-to-one on the elements that are not sent to 0, and 0 is only
    /// sent to 0.
    pub open spec fn one_to_one(self) -> bool {
        forall|a: int, b: int|
            #![trigger self.app(a), self.app(b)]
            self.is_elem(a) && self.is_elem(b) && a != b && self.app(a) != 0 ==> self.app(a)
                != self.app(b)
    }

    /// A bijection of the elements onto themselves (for a reversing permutation, one that
    /// commutes with negation and fixes 0).
    pub open spec fn is_bijection(self) -> bool {
        &&& self.shaped()
        &&& self.in_range()
        &&& forall|a: int, b: int|
            #![trigger self.app(a), self.app(b)]
            self.is_elem(a) && self.is_elem(b) && a != b ==> self.app(a) != self.app(b)
        &&& self.reverses ==> (forall|e: int| #[trigger]
            self.is_elem(e) ==> self.app(-e) == -self.app(e))
    }
}

impl View for Permutation {
    type V = PermutationView;

    closed spec fn view(&self) -> PermutationView {
        PermutationView { size: self.size as nat, mapping: self.mapping@, reverses: self.reverses }
    }
}

/// Greatest common divisor, by Euclid's algorithm.
pub open spec fn gcd(x: nat, y: nat) -> nat
    decreases x,
{
    if x == 0 {
        y
    } else {
        gcd(y % x, x)
    }
}

/// Least common multiple; 0 when either argument is 0.
pub open spec fn lcm_spec(x: nat, y: nat) -> nat {
    if x == 0 || y == 0 {
        0
    } else {
        (x * y) / gcd(x, y)
    }
}

pub proof fn lemma_gcd_pos(x: nat, y: nat)
    requires
        y > 0,
    ensures
        gcd(x, y) > 0,
    decreases x,
{
    if x > 0 {
        lemma_gcd_pos((y % x) as nat, x);
    }
}

/// Least common multiple of two sizes.
pub fn lcm(x: usize, y: usize) -> (r: usize)
    requires
        x * y <= usize::MAX,
    ensures
        r == lcm_spec(x as nat, y as nat),
{
    if x == 0 || y == 0 {
        return 0;
    }
    let x0 = x;
    let y0 = y;
    let mut x = x;
    let mut y = y;
    let mut g = y;
    while x > 0
        invariant
            gcd(x as nat, y as nat) == gcd(x0 as nat, y0 as nat),
            x == 0 ==> g == y,
            y > 0,
        decreases x,
    {
        g = x;
        x = y % x;
        y = g;
    }
    proof {
        lemma_gcd_pos(x0 as nat, y0 as nat);
        assert(gcd(0, y as nat) == y);
        assert(x0 * y0 <= usize::MAX);
        assert((x0 * y0) / (g as int) <= x0 * y0) by (nonlinear_arith)
            requires
                g > 0,
                x0 * y0 >= 0,
        ;
    }
    (x0 * y0) / g
}

impl Permutation {
    /// The permutation that leaves every element in place.
    pub fn identity(size: usize) -> (r: Self)
        requires
            size <= MAX_PERMUTATION_SIZE,
        ensures
            r@.size == size,
            !r@.reverses,
            r@.shaped(),
            forall|e: int| r@.is_elem(e) ==> r@.app(e) == e,
    {
        Self::new(size, false)
    }

    /// The identity permutation, on `-size..=size` when it reverses.
    pub fn new(size: usize, reverses: bool) -> (r: Self)
        requires
            size <= MAX_PERMUTATION_SIZE,
        ensures
            r@.size == size,
            r@.reverses == reverses,
            r@.shaped(),
            forall|e: int| r@.is_elem(e) ==> r@.app(e) == e,
    {
        let mut mapping: Vec<i32> = Vec::new();
        if reverses {
            let n = size * 2 + 1;
            let mut index: usize = 0;
            while index < n
                invariant
                    n == size * 2 + 1,
                    size <= MAX_PERMUTATION_SIZE,
                    index <= n,
                    mapping.len() == index,
                    forall|i: int| 0 <= i < index ==> mapping@[i] == i - size,
                decreases n - index,
            {
                mapping.push(index as i32 - size as i32);
                index = index + 1;
            }
        } else {
            let mut index: usize = 1;
            while index <= size
                invariant
                    size <= MAX_PERMUTATION_SIZE,
                    1 <= index <= size + 1,
                    mapping.len() == index - 1,
                    forall|i: int| 0 <= i < index - 1 ==> mapping@[i] == i + 1,
                decreases size + 1 - index,
            {
                mapping.push(index as i32);
                index = index + 1;
            }
        }
        Self { size, mapping, reverses }
    }

    /// A permutation with the given table, taken as it is.
    pub fn from_mapping(size: usize, mapping: Vec<i32>, reverses: bool) -> (r: Self)
        ensures
            r@ == (PermutationView { size: size as nat, mapping: mapping@, reverses }),
    {
        Self { size, mapping, reverses }
    }

    pub fn size(&self) -> (r: usize)
        ensures
            r == self@.size,
    {
        self.size
    }

    pub fn has_reverses(&self) -> (r: bool)
        ensures
            r == self@.reverses,
    {
        self.reverses
    }

    /// A copy with the same content.
    pub fn duplicate(&self) -> (r: Self)
        ensures
            r@ == self@,
    {
        let mapping = self.mapping.clone();
        assert(mapping@ =~= self.mapping@);
        Self { size: self.size, mapping, reverses: self.reverses }
    }

    /// The image of `elem`.
    pub fn map(&self, elem: i32) -> (r: i32)
        requires
            self@.sane(),
            self@.in_bounds(elem as int),
        ensures
            r == self@.app(elem as int),
    {
        if self.reverses {
            self.mapping[(elem + self.size as i32) as usize]
        } else {
            self.mapping[(elem - 1) as usize]
        }
    }

    /// Whether every positive element that is not sent to 0 comes back to itself, as the
    /// orders and the cycle notation need.
    pub fn positives_return(&self) -> (r: bool)
        requires
            self@.shaped(),
            self@.in_range(),
        ensures
            r == self@.positives_close(),
    {
        let ghost v = self@;
        let len: usize = if self.reverses { self.size * 2 + 1 } else { self.size };
        let mut n: usize = 1;
        while n <= self.size
            invariant
                v == self@,
                v.shaped(),
                v.in_range(),
                len == v.table_len(),
                1 <= n <= v.size + 1,
                forall|m: int| 1 <= m < n && #[trigger] v.app(m) != 0 ==> v.closes(m),
            decreases self.size + 1 - n,
        {
            assert(v.is_elem(n as int));
            let first = self.map(n as i32);
            if first != 0 {
                let mut x = first;
                let mut k: usize = 1;
                proof {
                    assert(v.iter(n as int, 1) == v.app(v.iter(n as int, 0)));
                    lemma_iter_is_elem(v, n as int, 1);
                }
                while x != n as i32 && k < len
                    invariant
                        v == self@,
                        v.shaped(),
                        v.in_range(),
                        len == v.table_len(),
                        1 <= n <= v.size,
                        1 <= k <= len,
                        x as int == v.iter(n as int, k as nat),
                        v.is_elem(x as int),
                        forall|j: nat| 1 <= j < k ==> #[trigger] v.iter(n as int, j) != n,
                    decreases len - k,
                {
                    x = self.map(x);
                    k = k + 1;
                    proof {
                        assert(v.iter(n as int, k as nat) == v.app(v.iter(n as int, (k - 1) as nat)));
                        lemma_iter_is_elem(v, n as int, k as nat);
                    }
                }
                if x != n as i32 {
                    proof {
                        if v.closes(n as int) {
                            lemma_closing_within_table(v, n as int);
                            let c = v.cycle_len(n as int);
                            assert(v.iter(n as int, c) == n);
                            assert(c < k || c == k);
                        }
                        assert(!v.positives_close());
                    }
                    return false;
                }
                proof {
                    assert(v.iter(n as int, k as nat) == n);
                    assert(v.closes(n as int));
                }
            }
            n = n + 1;
        }
        true
    }

    /// The first element that maps to `elem`, or 0 when there is none.
    pub fn map_inverse(&self, elem: i32) -> (r: i32)
        requires
            self@.size <= MAX_PERMUTATION_SIZE,
            self@.mapping.len() <= 2 * MAX_PERMUTATION_SIZE + 1,
        ensures
            r == self@.inv_app(elem as int),
    {
        let mut index: usize = 0;
        while index < self.mapping.len()
            invariant
                self@.size <= MAX_PERMUTATION_SIZE,
                self@.mapping.len() <= 2 * MAX_PERMUTATION_SIZE + 1,
                index <= self@.mapping.len(),
                PermutationView::find_from(self@.mapping, elem as int, 0)
                    == PermutationView::find_from(self@.mapping, elem as int, index as int),
            decreases self.mapping.len() - index,
        {
            if self.mapping[index] == elem {
                if self.reverses {
                    return index as i32 - self.size as i32;
                } else {
                    return index as i32 + 1;
                }
            }
            index = index + 1;
        }
        0
    }

    /// `elem` moved `power` times, backwards (with `map_inverse`) when `power` is negative.
    pub fn map_power(&self, elem: i32, power: i32) -> (r: i32)
        requires
            self@.sane(),
            power > i32::MIN,
            power > 0 ==> forall|k: nat| k < power ==> #[trigger] self@.in_bounds(
                self@.iter(elem as int, k),
            ),
        ensures
            power >= 0 ==> r == self@.iter(elem as int, power as nat),
            power < 0 ==> r == self@.inv_iter(elem as int, (-power) as nat),
    {
        let mut current = elem;
        if power > 0 {
            let mut i: i32 = 0;
            while i < power
                invariant
                    0 <= i <= power,
                    self@.sane(),
                    forall|k: nat| k < power ==> #[trigger] self@.in_bounds(
                        self@.iter(elem as int, k),
                    ),
                    current == self@.iter(elem as int, i as nat),
                decreases power - i,
            {
                assert(self@.in_bounds(self@.iter(elem as int, i as nat)));
                current = self.map(current);
                i = i + 1;
            }
        } else if power < 0 {
            let mut i: i32 = 0;
            while i < -power
                invariant
                    i32::MIN < power < 0,
                    0 <= i <= -power,
                    self@.size <= MAX_PERMUTATION_SIZE,
                    self@.mapping.len() <= 2 * MAX_PERMUTATION_SIZE + 1,
                    current == self@.inv_iter(elem as int, i as nat),
                decreases -power - i,
            {
                current = self.map_inverse(current);
                i = i + 1;
            }
        }
        current
    }
}


impl PermutationView {
    /// `self` followed by `s` can be computed on every positive element.
    pub open spec fn composable(self, s: PermutationView) -> bool {
        s.size == self.size && !self.reverses && !s.reverses ==> forall|e: int|
            #![trigger self.in_bounds(e)]
            1 <= e <= self.size ==> self.in_bounds(e) && s.in_bounds(self.app(e))
    }

    /// Every entry of the table is an element.
    pub open spec fn values_in_range(self) -> bool {
        forall|i: int| 0 <= i < self.mapping.len() ==> #[trigger] self.is_elem(self.mapping[i] as int)
    }

    /// What `inverse` stores for element `e`: the last element that maps to `e`, or 0.
    pub open spec fn inverse_entry(self, e: int) -> int {
        let p = Self::find_last_before(self.mapping, e, self.mapping.len() as int);
        if p < 0 {
            0
        } else {
            self.elem_at(p)
        }
    }

    /// Product of the cycle lengths folded with `lcm`, over the elements `1..=n` that are
    /// not sent to 0.
    pub open spec fn order_upto(self, n: int) -> nat
        decreases n,
    {
        if n <= 0 {
            1
        } else if self.app(n) != 0 {
            lcm_spec(self.order_upto(n - 1), self.cycle_len(n))
        } else {
            self.order_upto(n - 1)
        }
    }

    /// The largest cycle length over the elements `1..=n` that are not sent to 0 (at least 1).
    pub open spec fn max_order_upto(self, n: int) -> nat
        decreases n,
    {
        if n <= 0 {
            1
        } else if self.app(n) != 0 {
            let m = self.max_order_upto(n - 1);
            let c = self.cycle_len(n);
            if c > m {
                c
            } else {
                m
            }
        } else {
            self.max_order_upto(n - 1)
        }
    }

    /// The orders of all positive elements that are not sent to 0 can be combined without
    /// leaving `usize`.
    pub open spec fn order_fits(self) -> bool {
        forall|n: int|
            1 <= n <= self.size && #[trigger] self.app(n) != 0 ==> self.order_upto(n - 1)
                * self.cycle_len(n) <= usize::MAX
    }

    pub open spec fn positives_close(self) -> bool {
        forall|n: int| 1 <= n <= self.size && #[trigger] self.app(n) != 0 ==> self.closes(n)
    }
}

pub proof fn lemma_iter_is_elem(p: PermutationView, e: int, k: nat)
    requires
        p.in_range(),
        p.is_elem(e),
    ensures
        p.is_elem(p.iter(e, k)),
    decreases k,
{
    if k > 0 {
        lemma_iter_is_elem(p, e, (k - 1) as nat);
        assert(p.is_elem(p.iter(e, (k - 1) as nat)));
    }
}

pub proof fn lemma_composable(p: PermutationView, s: PermutationView, e: int)
    requires
        p.composable(s),
        s.size == p.size,
        !p.reverses,
        !s.reverses,
        1 <= e <= p.size,
    ensures
        p.in_bounds(e),
        s.in_bounds(p.app(e)),
{
    assert(p.in_bounds(e));
}

pub proof fn lemma_elem_in_bounds(p: PermutationView, e: int)
    requires
        p.shaped(),
        p.is_elem(e),
    ensures
        p.in_bounds(e),
{
}

pub proof fn lemma_cycle_len_unique(p: PermutationView, e: int, k: nat)
    requires
        p.is_cycle_len(e, k),
    ensures
        p.cycle_len(e) == k,
{
    let c = p.cycle_len(e);
    assert(p.is_cycle_len(e, c));
    if c < k {
        assert(p.iter(e, c) != e);
    } else if k < c {
        assert(p.iter(e, k) != e);
    }
}

impl Permutation {
    /// The inverse table: each element is sent to the last element that maps to it
    /// (for a bijection, its preimage), and elements nothing maps to are sent to 0.
    pub fn inverse(&self) -> (r: Permutation)
        requires
            self@.sane(),
            self@.values_in_range(),
        ensures
            r@.size == self@.size,
            r@.reverses == self@.reverses,
            r@.mapping.len() == self@.table_len(),
            forall|e: int| #[trigger] self@.is_elem(e) ==> r@.app(e) == self@.inverse_entry(e),
    {
        let ghost v = self@;
        let n: usize = if self.reverses { self.size * 2 + 1 } else { self.size };
        let mut inverse: Vec<i32> = Vec::new();
        let mut k: usize = 0;
        while k < n
            invariant
                k <= n,
                inverse.len() == k,
                forall|j: int| 0 <= j < k ==> inverse@[j] == 0,
            decreases n - k,
        {
            inverse.push(0);
            k = k + 1;
        }
        let mut index: usize = 0;
        while index < self.mapping.len()
            invariant
                v == self@,
                v.sane(),
                v.values_in_range(),
                n == v.table_len(),
                inverse.len() == n,
                index <= v.mapping.len(),
                forall|j: int|
                    0 <= j < n ==> {
                        let p = PermutationView::find_last_before(
                            v.mapping,
                            v.elem_at(j),
                            index as int,
                        );
                        #[trigger] inverse@[j] == (if p < 0 {
                            0
                        } else {
                            v.elem_at(p)
                        })
                    },
            decreases self.mapping.len() - index,
        {
            let value = self.mapping[index];
            assert(v.is_elem(v.mapping[index as int] as int));
            let pos: usize = if self.reverses {
                (value + self.size as i32) as usize
            } else {
                (value - 1) as usize
            };
            let stored: i32 = if self.reverses {
                index as i32 - self.size as i32
            } else {
                index as i32 + 1
            };
            inverse[pos] = stored;
            index = index + 1;
            assert forall|j: int| 0 <= j < n implies {
                let p = PermutationView::find_last_before(v.mapping, v.elem_at(j), index as int);
                #[trigger] inverse@[j] == (if p < 0 {
                    0
                } else {
                    v.elem_at(p)
                })
            } by {
                if j == pos {
                    assert(v.elem_at(j) == value);
                } else {
                    assert(v.elem_at(j) != value);
                }
            }
        }
        let r = Self::from_mapping(self.size, inverse, self.reverses);
        assert forall|e: int| #[trigger] self@.is_elem(e) implies r@.app(e) == self@.inverse_entry(
            e,
        ) by {
            assert(v.elem_at(v.idx(e)) == e);
        }
        r
    }

    /// `self` followed by `second`; `self` unchanged when `second` is missing, of another
    /// size, or either one reverses.
    pub fn composed_with(&self, second: Option<&Permutation>) -> (r: Permutation)
        requires
            self@.sane(),
            second matches Some(s) ==> s@.sane() && self@.composable(s@),
        ensures
            match second {
                Some(s) => if s@.size == self@.size && !self@.reverses && !s@.reverses {
                    &&& r@.size == self@.size
                    &&& !r@.reverses
                    &&& r@.mapping.len() == self@.size
                    &&& forall|e: int| 1 <= e <= self@.size ==> #[trigger] r@.app(e) == s@.app(
                        self@.app(e),
                    )
                } else {
                    r@ == self@
                },
                None => r@ == self@,
            },
    {
        let second = match second {
            Some(s) => s,
            None => {
                return self.duplicate();
            },
        };
        if self.size != second.size || self.reverses || second.reverses {
            return self.duplicate();
        }
        let mut mapping: Vec<i32> = Vec::new();
        let mut elem: usize = 1;
        assert(self@.composable(second@));
        assert(second@.size == self@.size);
        assert(!self@.reverses && !second@.reverses);
        while elem <= self.size
            invariant
                1 <= elem <= self@.size + 1,
                self@.sane(),
                second@.sane(),
                second@.size == self@.size,
                !self@.reverses,
                !second@.reverses,
                self@.composable(second@),
                mapping.len() == elem - 1,
                forall|i: int|
                    0 <= i < elem - 1 ==> mapping@[i] == second@.app(self@.app(i + 1)),
            decreases self.size + 1 - elem,
        {
            proof {
                lemma_composable(self@, second@, elem as int);
            }
            let first = self.map(elem as i32);
            let m = second.map(first);
            mapping.push(m);
            elem = elem + 1;
        }
        Self::from_mapping(self.size, mapping, false)
    }

    /// The length of the cycle through `elem`.
    pub fn order_of(&self, elem: i32) -> (r: usize)
        requires
            self@.shaped(),
            self@.in_range(),
            self@.is_elem(elem as int),
            self@.closes(elem as int),
        ensures
            self@.is_cycle_len(elem as int, r as nat),
            r == self@.cycle_len(elem as int),
    {
        let ghost v = self@;
        let ghost bound: nat = choose|k: nat| 1 <= k <= usize::MAX && #[trigger] v.iter(elem as int, k) == elem;
        let mut order: usize = 1;
        let mut index: usize = if self.reverses {
            (elem + self.size as i32) as usize
        } else {
            (elem - 1) as usize
        };
        proof {
            lemma_iter_is_elem(v, elem as int, 0);
        }
        while self.mapping[index] != elem
            invariant
                v == self@,
                v.shaped(),
                v.in_range(),
                v.is_elem(elem as int),
                1 <= bound <= usize::MAX,
                v.iter(elem as int, bound) == elem,
                1 <= order <= bound,
                index == v.idx(v.iter(elem as int, (order - 1) as nat)),
                v.is_elem(v.iter(elem as int, (order - 1) as nat)),
                forall|j: nat| 1 <= j < order ==> #[trigger] v.iter(elem as int, j) != elem,
            decreases bound - order,
        {
            let next = self.mapping[index];
            proof {
                assert(next == v.iter(elem as int, order as nat));
                lemma_iter_is_elem(v, elem as int, order as nat);
                if order == bound {
                    assert(false);
                }
            }
            order = order + 1;
            index = if self.reverses {
                (next + self.size as i32) as usize
            } else {
                (next - 1) as usize
            };
        }
        proof {
            assert(v.iter(elem as int, order as nat) == elem);
            lemma_cycle_len_unique(v, elem as int, order as nat);
        }
        order
    }

    /// The elements of the cycle through `elem`, starting with `elem`.
    pub fn cycle_of(&self, elem: i32) -> (r: Vec<i32>)
        requires
            self@.shaped(),
            self@.in_range(),
            self@.is_elem(elem as int),
            self@.closes(elem as int),
        ensures
            r.len() == self@.cycle_len(elem as int),
            forall|i: int| 0 <= i < r.len() ==> r@[i] == self@.iter(elem as int, i as nat),
    {
        let order = self.order_of(elem);
        let mut term = elem;
        let mut result: Vec<i32> = Vec::with_capacity(order);
        let mut i: usize = 0;
        while i < order
            invariant
                self@.shaped(),
                self@.in_range(),
                self@.is_elem(elem as int),
                i <= order,
                result.len() == i,
                term == self@.iter(elem as int, i as nat),
                forall|j: int| 0 <= j < i ==> result@[j] == self@.iter(elem as int, j as nat),
            decreases order - i,
        {
            result.push(term);
            proof {
                lemma_iter_is_elem(self@, elem as int, i as nat);
            }
            term = if self.reverses {
                self.mapping[(term + self.size as i32) as usize]
            } else {
                self.mapping[(term - 1) as usize]
            };
            i = i + 1;
        }
        result
    }

    /// The least common multiple of the cycle lengths of the positive elements that are not
    /// sent to 0.
    #[verifier::rlimit(40)]
    pub fn order(&self) -> (r: usize)
        requires
            self@.shaped(),
            self@.in_range(),
            self@.positives_close(),
            self@.order_fits(),
        ensures
            r == self@.order_upto(self@.size as int),
    {
        let mut order: usize = 1;
        let mut elem: usize = 1;
        while elem <= self.size
            invariant
                self@.shaped(),
                self@.in_range(),
                self@.positives_close(),
                self@.order_fits(),
                1 <= elem <= self@.size + 1,
                order == self@.order_upto(elem - 1),
            decreases self.size + 1 - elem,
        {
            assert(self@.is_elem(elem as int));
            if self.map(elem as i32) != 0 {
                assert(self@.app(elem as int) != 0);
                let c = self.order_of(elem as i32);
                order = lcm(order, c);
            }
            elem = elem + 1;
        }
        order
    }

    /// The largest cycle length among the positive elements that are not sent to 0.
    pub fn max_order(&self) -> (r: usize)
        requires
            self@.shaped(),
            self@.in_range(),
            self@.positives_close(),
        ensures
            r == self@.max_order_upto(self@.size as int),
    {
        let mut order: usize = 1;
        let mut elem: usize = 1;
        while elem <= self.size
            invariant
                self@.shaped(),
                self@.in_range(),
                self@.positives_close(),
                1 <= elem <= self@.size + 1,
                order == self@.max_order_upto(elem - 1),
            decreases self.size + 1 - elem,
        {
            assert(self@.is_elem(elem as int));
            if self.map(elem as i32) != 0 {
                assert(self@.app(elem as int) != 0);
                let c = self.order_of(elem as i32);
                if c > order {
                    order = c;
                }
            }
            elem = elem + 1;
        }
        order
    }
}

// ---------------------------------------------------------------------------------------
// The text forms of a permutation.
// ---------------------------------------------------------------------------------------

/// The pieces of a list that are not blank.
pub open spec fn nonblank_pieces(s: Seq<Seq<char>>) -> Seq<Seq<char>>
    decreases s.len(),
{
    if s.len() == 0 {
        s
    } else {
        let r = nonblank_pieces(s.drop_last());
        if trim(s.last()).len() > 0 {
            r.push(s.last())
        } else {
            r
        }
    }
}

/// The cycle texts of a cycle notation: the non-blank pieces between the `)`.
pub open spec fn cycle_pieces(t: Seq<char>) -> Seq<Seq<char>> {
    nonblank_pieces(split_on(t, ')'))
}

/// A cycle text starts with `(` once trimmed.
pub open spec fn piece_opens(p: Seq<char>) -> bool {
    trim(p).len() > 0 && trim(p)[0] == '('
}

/// The element texts of a cycle text.
pub open spec fn piece_tokens(p: Seq<char>) -> Seq<Seq<char>> {
    split_on(trim(p).drop_first(), ',')
}

/// The element that a cycle element text names: an integer, negated when a reversing
/// permutation marks it with a trailing `*`.
pub open spec fn cycle_token_value(tok: Seq<char>, reverses: bool) -> Option<int> {
    let t = trim(tok);
    if reverses && t.len() > 0 && t.last() == '*' {
        match parsed_i32(trim(t.drop_last())) {
            Some(v) => Some(-(v as int)),
            None => None,
        }
    } else {
        match parsed_i32(t) {
            Some(v) => Some(v as int),
            None => None,
        }
    }
}

/// A cycle text that opens with `(` and whose element texts all name integers.
pub open spec fn piece_readable(p: Seq<char>, reverses: bool) -> bool {
    &&& piece_opens(p)
    &&& forall|j: int|
        0 <= j < piece_tokens(p).len() ==> (#[trigger] cycle_token_value(piece_tokens(p)[j], reverses)) is Some
}

/// The elements that a readable cycle text names.
pub open spec fn piece_values(p: Seq<char>, reverses: bool) -> Seq<int> {
    Seq::new(piece_tokens(p).len(), |j: int| cycle_token_value(piece_tokens(p)[j], reverses)->0)
}

/// Every cycle text is readable.
pub open spec fn cycles_readable(t: Seq<char>, reverses: bool) -> bool {
    forall|i: int| 0 <= i < cycle_pieces(t).len() ==> piece_readable(#[trigger] cycle_pieces(t)[i], reverses)
}

/// The cycles that a readable cycle notation names.
pub open spec fn cycles_of(t: Seq<char>, reverses: bool) -> Seq<Seq<int>> {
    Seq::new(cycle_pieces(t).len(), |i: int| piece_values(cycle_pieces(t)[i], reverses))
}

/// An element that a permutation of `size` may name in its text.
pub open spec fn nameable(e: int, size: nat, reverses: bool) -> bool {
    if reverses {
        -(size as int) <= e <= size && e != 0
    } else {
        1 <= e <= size
    }
}

/// All named elements are in range and no element is named twice.
pub open spec fn cycles_distinct(c: Seq<Seq<int>>, size: nat, reverses: bool) -> bool {
    &&& forall|i: int, j: int|
        0 <= i < c.len() && 0 <= j < c[i].len() ==> nameable(#[trigger] c[i][j], size, reverses)
    &&& forall|i1: int, j1: int, i2: int, j2: int|
        0 <= i1 < c.len() && 0 <= j1 < c[i1].len() && 0 <= i2 < c.len() && 0 <= j2 < c[i2].len()
            && (i1 != i2 || j1 != j2) ==> #[trigger] c[i1][j1] != #[trigger] c[i2][j2]
}

/// A cycle notation that parses: readable, in range, no element twice.
pub open spec fn cycles_valid(t: Seq<char>, size: nat, reverses: bool) -> bool {
    cycles_readable(t, reverses) && cycles_distinct(cycles_of(t, reverses), size, reverses)
}

/// `e` is named in one of the cycles.
pub open spec fn occurs(c: Seq<Seq<int>>, e: int) -> bool {
    exists|i: int, j: int| 0 <= i < c.len() && 0 <= j < c[i].len() && #[trigger] c[i][j] == e
}

/// A position of `e` in the cycles.
pub open spec fn position(c: Seq<Seq<int>>, e: int) -> (int, int) {
    choose|p: (int, int)| 0 <= p.0 < c.len() && 0 <= p.1 < c[p.0].len() && #[trigger] c[p.0][p.1] == e
}

/// The element that follows `e` in its cycle (the first one after the last).
pub open spec fn successor(c: Seq<Seq<int>>, e: int) -> int {
    let p = position(c, e);
    c[p.0][(p.1 + 1) % (c[p.0].len() as int)]
}

proof fn lemma_position(c: Seq<Seq<int>>, e: int)
    requires
        occurs(c, e),
    ensures
        0 <= position(c, e).0 < c.len(),
        0 <= position(c, e).1 < c[position(c, e).0].len(),
        c[position(c, e).0][position(c, e).1] == e,
{
    let (i, j) = choose|i: int, j: int| 0 <= i < c.len() && 0 <= j < c[i].len() && #[trigger] c[i][j] == e;
    assert(c[(i, j).0][(i, j).1] == e);
}

/// The image of `e` in the permutation that cycle notation names: its successor in its
/// cycle; for a reversing permutation, the negated successor of `-e` when only `-e` is
/// named, and 0 when neither is; otherwise `e` itself.
pub open spec fn cycle_image(c: Seq<Seq<int>>, e: int, reverses: bool) -> int {
    if occurs(c, e) {
        successor(c, e)
    } else if reverses && occurs(c, -e) {
        -successor(c, -e)
    } else if reverses && e != 0 {
        0
    } else {
        e
    }
}

/// The tokens of an explicit mapping, one per element.
pub open spec fn explicit_tokens(t: Seq<char>) -> Seq<Seq<char>> {
    split_on(t, ',')
}

pub open spec fn explicit_value(t: Seq<char>, i: int) -> int {
    parsed_i32(trim(explicit_tokens(t)[i]))->0 as int
}

/// An explicit mapping that parses: one token per element (unless the size is 0), each an
/// integer in `1..=size`, none twice.
pub open spec fn explicit_valid(t: Seq<char>, size: nat) -> bool {
    &&& (explicit_tokens(t).len() == size || size == 0)
    &&& forall|i: int|
        0 <= i < explicit_tokens(t).len() ==> #[trigger] parsed_i32(trim(explicit_tokens(t)[i])) is Some
    &&& forall|i: int|
        0 <= i < explicit_tokens(t).len() ==> 1 <= #[trigger] explicit_value(t, i) <= size
    &&& forall|i: int, k: int|
        0 <= i < k < explicit_tokens(t).len() ==> explicit_value(t, i) != explicit_value(t, k)
}

/// The error for the first bad element of an explicit list, from element `i` on (empty
/// when there is none): an unreadable number, one out of `1..=size`, or one named twice.
pub open spec fn explicit_error_from(t: Seq<char>, size: nat, i: int) -> Seq<char>
    decreases explicit_tokens(t).len() - i,
{
    if i < 0 || i >= explicit_tokens(t).len() {
        Seq::empty()
    } else if parsed_i32(trim(explicit_tokens(t)[i])) is None {
        "Invalid number in permutation"@
    } else if !(1 <= explicit_value(t, i) <= size) {
        "Permutation element out of range"@
    } else if exists|k: int| 0 <= k < i && explicit_value(t, k) == explicit_value(t, i) {
        "Permutation is not one-to-one"@
    } else {
        explicit_error_from(t, size, i + 1)
    }
}

/// The error that an explicit list gives: a wrong number of elements first, then the
/// first bad element.
pub open spec fn explicit_error(t: Seq<char>, size: nat) -> Seq<char> {
    if explicit_tokens(t).len() != size && size != 0 {
        "Invalid permutation format: expected "@ + decimal(size) + " elements"@
    } else {
        explicit_error_from(t, size, 0)
    }
}

pub proof fn lemma_pigeonhole(s: Seq<int>, n: int)
    requires
        s.len() == n,
        s.no_duplicates(),
        forall|i: int| 0 <= i < s.len() ==> 1 <= #[trigger] s[i] <= n,
    ensures
        forall|v: int| 1 <= v <= n ==> s.contains(v),
{
    s.unique_seq_to_set();
    lemma_int_range(1, n + 1);
    let r = set_int_range(1, n + 1);
    assert(s.to_set().subset_of(r));
    vstd::seq_lib::seq_to_set_is_finite(s);
    lemma_subset_equality(s.to_set(), r);
    assert forall|v: int| 1 <= v <= n implies s.contains(v) by {
        assert(r.contains(v));
        assert(s.to_set().contains(v));
    }
}

/// Cycle facts of a mapping table under construction: each listed cycle is closed.
pub open spec fn cycles_hold(v: PermutationView, c: Seq<Seq<int>>) -> bool {
    forall|i: int, j: int|
        0 <= i < c.len() && 0 <= j < c[i].len() ==> v.app(#[trigger] c[i][j]) == c[i][(j + 1) % (
        c[i].len() as int)]
}

/// The elements listed in the cycles are exactly those marked as used.
pub open spec fn used_matches(v: PermutationView, used: Seq<bool>, c: Seq<Seq<int>>) -> bool {
    &&& used.len() == v.mapping.len()
    &&& forall|e: int|
        v.in_bounds(e) && e != 0 ==> (used[v.idx(e)] <==> #[trigger] occurs(c, e))
}

impl Permutation {
    fn reverse_index(&self, elem: i32) -> (r: usize)
        requires
            self@.sane(),
            self@.reverses,
            0 <= elem + self@.size <= 2 * MAX_PERMUTATION_SIZE + 1,
        ensures
            r == self@.idx(elem as int),
    {
        (elem + self.size as i32) as usize
    }

    fn parse_cycle_element(&self, element: &Vec<char>) -> (r: Result<i32, String>)
        requires
            self@.sane(),
        ensures
            match r {
                Ok(n) => cycle_token_value(element@, self@.reverses) == Some(n as int),
                Err(m) => (cycle_token_value(element@, self@.reverses) is None || !nameable(
                    cycle_token_value(element@, self@.reverses)->0,
                    self@.size,
                    self@.reverses,
                )) && (!self@.reverses ==> cycle_token_value(element@, false) is None && m@
                    == "Invalid number in permutation"@),
            },
    {
        let token = trim_chars(element);
        let mut negate = false;
        let mut body = token;
        let ghost t = trim(element@);
        if self.reverses && body.len() > 0 && body[body.len() - 1] == '*' {
            negate = true;
            let cut = slice_of(&body, 0, body.len() - 1);
            assert(cut@ == t.drop_last());
            body = trim_chars(&cut);
        }
        let num = match parse_i32(&body) {
            Some(n) => n,
            None => {
                return Err("Invalid number in permutation".to_owned());
            },
        };
        if negate {
            if num == i32::MIN {
                return Err("Permutation element out of range".to_owned());
            }
            Ok(-num)
        } else {
            Ok(num)
        }
    }
}

/// The bookkeeping of a table being filled from cycle notation: the cycles listed so far
/// are closed in the table, distinct and in range; exactly their elements are marked
/// used; everything else is still 0.
pub open spec fn building(v: PermutationView, used: Seq<bool>, c: Seq<Seq<int>>) -> bool {
    &&& v.shaped()
    &&& cycles_hold(v, c)
    &&& used_matches(v, used, c)
    &&& cycles_distinct(c, v.size, v.reverses)
    &&& forall|e: int| #[trigger] v.in_bounds(e) && !occurs(c, e) ==> v.app(e) == 0
}

proof fn lemma_nameable_in_bounds(v: PermutationView, e: int)
    requires
        v.shaped(),
        nameable(e, v.size, v.reverses),
    ensures
        v.in_bounds(e),
        e != 0,
{
}

proof fn lemma_occurs_nameable(v: PermutationView, c: Seq<Seq<int>>, e: int)
    requires
        cycles_distinct(c, v.size, v.reverses),
        occurs(c, e),
    ensures
        nameable(e, v.size, v.reverses),
{
    let (i, j) = choose|i: int, j: int| 0 <= i < c.len() && 0 <= j < c[i].len() && #[trigger] c[i][j] == e;
    assert(nameable(c[i][j], v.size, v.reverses));
}

/// Starting a new, empty cycle keeps the bookkeeping.
proof fn lemma_building_open(v: PermutationView, used: Seq<bool>, c: Seq<Seq<int>>)
    requires
        building(v, used, c),
    ensures
        building(v, used, c.push(Seq::empty())),
{
    let c2 = c.push(Seq::empty());
    assert forall|e: int| occurs(c2, e) <==> occurs(c, e) by {
        if occurs(c2, e) {
            let (i, j) = choose|i: int, j: int| 0 <= i < c2.len() && 0 <= j < c2[i].len() && #[trigger] c2[i][j] == e;
            assert(c[i][j] == e);
        }
        if occurs(c, e) {
            let (i, j) = choose|i: int, j: int| 0 <= i < c.len() && 0 <= j < c[i].len() && #[trigger] c[i][j] == e;
            assert(c2[i][j] == e);
        }
    }
    assert(cycles_hold(v, c2)) by {
        assert forall|i: int, j: int| 0 <= i < c2.len() && 0 <= j < c2[i].len() implies v.app(#[trigger] c2[i][j]) == c2[i][(j + 1) % (c2[i].len() as int)] by {
            assert(c2[i] == c[i]);
        }
    }
    assert(cycles_distinct(c2, v.size, v.reverses)) by {
        assert forall|i: int, j: int| 0 <= i < c2.len() && 0 <= j < c2[i].len() implies nameable(#[trigger] c2[i][j], v.size, v.reverses) by {
            assert(c2[i] == c[i]);
        }
        assert forall|i1: int, j1: int, i2: int, j2: int|
            0 <= i1 < c2.len() && 0 <= j1 < c2[i1].len() && 0 <= i2 < c2.len() && 0 <= j2 < c2[i2].len()
                && (i1 != i2 || j1 != j2) implies #[trigger] c2[i1][j1] != #[trigger] c2[i2][j2] by {
            assert(c2[i1] == c[i1]);
            assert(c2[i2] == c[i2]);
        }
    }
}

/// Adding `num` to the last (open) cycle: `num` takes over the successor of the previous
/// last element and becomes its successor.
proof fn lemma_building_extend(
    v: PermutationView,
    used: Seq<bool>,
    c: Seq<Seq<int>>,
    num: int,
    v2: PermutationView,
    used2: Seq<bool>,
)
    requires
        c.len() >= 1,
        building(v, used, c),
        nameable(num, v.size, v.reverses),
        !used[v.idx(num)],
        v2.size == v.size,
        v2.reverses == v.reverses,
        v2.mapping.len() == v.mapping.len(),
        used2 == used.update(v.idx(num), true),
        c.last().len() == 0 ==> v2.mapping == v.mapping.update(v.idx(num), num as i32),
        c.last().len() > 0 ==> v2.mapping == v.mapping.update(
            v.idx(num),
            v.mapping[v.idx(c.last().last())],
        ).update(v.idx(c.last().last()), num as i32),
    ensures
        building(v2, used2, c.drop_last().push(c.last().push(num))),
{
    let cur = c.last();
    let k = c.len() - 1;
    let cur2 = cur.push(num);
    let c2 = c.drop_last().push(cur2);
    lemma_nameable_in_bounds(v, num);
    assert(!occurs(c, num));
    assert forall|e: int| occurs(c2, e) <==> (occurs(c, e) || e == num) by {
        if occurs(c2, e) {
            let (i, j) = choose|i: int, j: int| 0 <= i < c2.len() && 0 <= j < c2[i].len() && #[trigger] c2[i][j] == e;
            if i < k {
                assert(c[i][j] == e);
            } else if j < cur.len() {
                assert(c[k][j] == e);
            }
        }
        if occurs(c, e) {
            let (i, j) = choose|i: int, j: int| 0 <= i < c.len() && 0 <= j < c[i].len() && #[trigger] c[i][j] == e;
            if i < k {
                assert(c2[i][j] == e);
            } else {
                assert(c2[k][j] == e);
            }
        }
        if e == num {
            assert(c2[k][cur.len() as int] == e);
        }
    }
    if cur.len() > 0 {
        let last = cur.last();
        assert(c[k][cur.len() - 1] == last);
        assert(occurs(c, last));
        lemma_occurs_nameable(v, c, last);
        lemma_nameable_in_bounds(v, last);
        assert(v.idx(last) != v.idx(num));
    }
    assert forall|e: int| v.in_bounds(e) && e != num && (cur.len() == 0 || e != cur.last()) implies #[trigger] v2.app(e) == v.app(e) by {
        assert(v.idx(e) != v.idx(num));
        if cur.len() > 0 {
            assert(v.idx(e) != v.idx(cur.last()));
        }
    }
    assert(cycles_distinct(c2, v.size, v.reverses)) by {
        assert forall|i: int, j: int| 0 <= i < c2.len() && 0 <= j < c2[i].len() implies nameable(#[trigger] c2[i][j], v.size, v.reverses) by {
            if i < k {
                assert(c2[i][j] == c[i][j]);
            } else if j < cur.len() {
                assert(c2[i][j] == c[k][j]);
            }
        }
        assert forall|i1: int, j1: int, i2: int, j2: int|
            0 <= i1 < c2.len() && 0 <= j1 < c2[i1].len() && 0 <= i2 < c2.len() && 0 <= j2 < c2[i2].len()
                && (i1 != i2 || j1 != j2) implies #[trigger] c2[i1][j1] != #[trigger] c2[i2][j2] by {
            let new1 = i1 == k && j1 == cur.len();
            let new2 = i2 == k && j2 == cur.len();
            if !new1 {
                assert(c2[i1][j1] == c[i1][j1]);
                assert(occurs(c, c[i1][j1]));
            }
            if !new2 {
                assert(c2[i2][j2] == c[i2][j2]);
                assert(occurs(c, c[i2][j2]));
            }
        }
    }
    assert(cycles_hold(v2, c2)) by {
        assert forall|i: int, j: int| 0 <= i < c2.len() && 0 <= j < c2[i].len() implies v2.app(#[trigger] c2[i][j]) == c2[i][(j + 1) % (c2[i].len() as int)] by {
            if i < k {
                let e = c[i][j];
                assert(c2[i] == c[i]);
                assert(occurs(c, e));
                lemma_occurs_nameable(v, c, e);
                lemma_nameable_in_bounds(v, e);
                if cur.len() > 0 {
                    assert(c[k][cur.len() - 1] == cur.last());
                    assert(e != cur.last());
                }
                assert(v.app(e) == c[i][(j + 1) % (c[i].len() as int)]);
            } else if j == cur.len() {
                if cur.len() == 0 {
                    assert(v2.app(num) == num);
                    vstd::arithmetic::div_mod::lemma_mod_self_0(c2[i].len() as int);
                } else {
                    assert(c[k][cur.len() - 1] == cur.last());
                    vstd::arithmetic::div_mod::lemma_mod_self_0(cur.len() as int);
                    vstd::arithmetic::div_mod::lemma_mod_self_0(c2[i].len() as int);
                    assert(v.app(cur.last()) == c[k][(cur.len() as int) % (cur.len() as int)]);
                }
            } else if j == cur.len() - 1 {
                assert(c2[i][j] == cur.last());
                vstd::arithmetic::div_mod::lemma_small_mod((j + 1) as nat, c2[i].len());
            } else {
                let e = cur[j];
                assert(c[k][j] == e);
                assert(occurs(c, e));
                lemma_occurs_nameable(v, c, e);
                lemma_nameable_in_bounds(v, e);
                assert(c[k][cur.len() - 1] == cur.last());
                assert(e != cur.last());
                assert(v.app(e) == c[k][(j + 1) % (cur.len() as int)]);
                vstd::arithmetic::div_mod::lemma_small_mod((j + 1) as nat, cur.len());
                vstd::arithmetic::div_mod::lemma_small_mod((j + 1) as nat, c2[i].len());
            }
        }
    }
    assert(used_matches(v2, used2, c2)) by {
        assert forall|e: int| v2.in_bounds(e) && e != 0 implies (used2[v2.idx(e)] <==> #[trigger] occurs(c2, e)) by {
            if e != num {
                assert(v.idx(e) != v.idx(num));
            }
        }
    }
    assert forall|e: int| #[trigger] v2.in_bounds(e) && !occurs(c2, e) implies v2.app(e) == 0 by {
        assert(!occurs(c, e));
        assert(e != num);
        assert(v.in_bounds(e));
        assert(v.idx(e) != v.idx(num));
        if cur.len() > 0 {
            assert(c2[k][cur.len() - 1] == cur.last());
            assert(e != cur.last());
            assert(v.idx(e) != v.idx(cur.last()));
        }
        assert(v2.app(e) == v.app(e));
    }
}

proof fn lemma_nonblank_step(s: Seq<Seq<char>>, k: int)
    requires
        0 <= k < s.len(),
    ensures
        nonblank_pieces(s.take(k + 1)) == (if trim(s[k]).len() > 0 {
            nonblank_pieces(s.take(k)).push(s[k])
        } else {
            nonblank_pieces(s.take(k))
        }),
{
    assert(s.take(k + 1).drop_last() =~= s.take(k));
    assert(s.take(k + 1).last() == s[k]);
}

proof fn lemma_nonblank_prefix(s: Seq<Seq<char>>, k: int, m: int)
    requires
        0 <= k <= m <= s.len(),
    ensures
        nonblank_pieces(s.take(k)).len() <= nonblank_pieces(s.take(m)).len(),
        forall|i: int|
            0 <= i < nonblank_pieces(s.take(k)).len() ==> #[trigger] nonblank_pieces(s.take(m))[i]
                == nonblank_pieces(s.take(k))[i],
    decreases m - k,
{
    if k < m {
        lemma_nonblank_prefix(s, k, m - 1);
        lemma_nonblank_step(s, m - 1);
    }
}

impl Permutation {
    fn add_cycle_element(&mut self, num: i32, last_num: i32, used: &mut Vec<bool>) -> (r: Result<
        (),
        String,
    >)
        requires
            old(self)@.shaped(),
            !old(self)@.reverses,
            old(used)@.len() == old(self)@.mapping.len(),
            last_num == -(old(self)@.size + 1) || 1 <= last_num <= old(self)@.size,
        ensures
            final(self)@.size == old(self)@.size,
            final(self)@.reverses == old(self)@.reverses,
            r is Err <==> !nameable(num as int, old(self)@.size, false) || old(used)@[num - 1],
            r matches Err(m) ==> m@ == if !nameable(num as int, old(self)@.size, false) {
                "Permutation element out of range"@
            } else {
                "Permutation is not one-to-one"@
            },
            r is Ok ==> final(used)@ == old(used)@.update(num - 1, true),
            r is Ok && last_num == -(old(self)@.size + 1) ==> final(self)@.mapping == old(
                self,
            )@.mapping.update(num - 1, num),
            r is Ok && last_num != -(old(self)@.size + 1) ==> final(self)@.mapping == old(
                self,
            )@.mapping.update(num - 1, old(self)@.mapping[last_num - 1]).update(
                last_num - 1,
                num,
            ),
    {
        if num < 1 || num > self.size as i32 {
            return Err("Permutation element out of range".to_owned());
        }
        let index = (num - 1) as usize;
        if used[index] {
            return Err("Permutation is not one-to-one".to_owned());
        }
        used[index] = true;
        if last_num == -(self.size as i32 + 1) {
            self.mapping[index] = num;
        } else {
            let last_index = (last_num - 1) as usize;
            let moved = self.mapping[last_index];
            self.mapping[index] = moved;
            self.mapping[last_index] = num;
        }
        Ok(())
    }

    fn add_reversing_cycle_element(&mut self, num: i32, last_num: i32, used: &mut Vec<bool>) -> (r:
        Result<(), String>)
        requires
            old(self)@.shaped(),
            old(self)@.reverses,
            old(used)@.len() == old(self)@.mapping.len(),
            last_num == -(old(self)@.size + 1) || nameable(
                last_num as int,
                old(self)@.size,
                true,
            ),
        ensures
            final(self)@.size == old(self)@.size,
            final(self)@.reverses == old(self)@.reverses,
            !nameable(num as int, old(self)@.size, true) || old(used)@[old(self)@.idx(num as int)]
                ==> r is Err,
            r is Ok ==> nameable(num as int, old(self)@.size, true) && !old(used)@[old(
                self,
            )@.idx(num as int)],
            r is Ok ==> final(used)@ == old(used)@.update(old(self)@.idx(num as int), true),
            r is Ok && last_num == -(old(self)@.size + 1) ==> final(self)@.mapping == old(
                self,
            )@.mapping.update(old(self)@.idx(num as int), num),
            r is Ok && last_num != -(old(self)@.size + 1) ==> final(self)@.mapping == old(
                self,
            )@.mapping.update(
                old(self)@.idx(num as int),
                old(self)@.mapping[old(self)@.idx(last_num as int)],
            ).update(old(self)@.idx(last_num as int), num),
            r is Ok <==> {
                &&& nameable(num as int, old(self)@.size, true)
                &&& !old(used)@[old(self)@.idx(num as int)]
                &&& last_num != -(old(self)@.size + 1) ==> {
                    let opposite = old(self)@.idx(-last_num);
                    let placed = old(self)@.mapping.update(
                        old(self)@.idx(num as int),
                        old(self)@.mapping[old(self)@.idx(last_num as int)],
                    ).update(old(self)@.idx(last_num as int), num);
                    !old(used)@.update(old(self)@.idx(num as int), true)[opposite] || placed[opposite]
                        == -num
                }
            },
    {
        if num < -(self.size as i32) || num > self.size as i32 || num == 0 {
            return Err("Permutation element out of range".to_owned());
        }
        let index = self.reverse_index(num);
        if used[index] {
            return Err("Permutation is not one-to-one".to_owned());
        }
        used[index] = true;
        if last_num == -(self.size as i32 + 1) {
            self.mapping[index] = num;
        } else {
            let last_index = self.reverse_index(last_num);
            let moved = self.mapping[last_index];
            self.mapping[index] = moved;
            self.mapping[last_index] = num;
            let opposite_last = self.reverse_index(-last_num);
            if used[opposite_last] && self.mapping[opposite_last] != -num {
                return Err("Permutation is not reversible".to_owned());
            }
        }
        Ok(())
    }
}

proof fn lemma_repeat_invalid(
    c: Seq<Seq<int>>,
    w: Seq<Seq<int>>,
    size: nat,
    reverses: bool,
    num: int,
    ti: int,
)
    requires
        w.len() >= 1,
        c.len() >= w.len(),
        forall|i: int| 0 <= i < w.len() - 1 ==> c[i] == w[i],
        w.last().len() == ti,
        c[w.len() - 1].len() > ti,
        forall|j: int| 0 <= j < ti ==> c[w.len() - 1][j] == w.last()[j],
        c[w.len() - 1][ti] == num,
        occurs(w, num) || !nameable(num, size, reverses),
    ensures
        !cycles_distinct(c, size, reverses),
{
    let k = w.len() - 1;
    if !nameable(num, size, reverses) {
        assert(!nameable(c[k][ti], size, reverses));
    } else {
        let (i, j) = choose|i: int, j: int| 0 <= i < w.len() && 0 <= j < w[i].len() && #[trigger] w[i][j] == num;
        if i < k {
            assert(c[i][j] == num);
        } else {
            assert(c[k][j] == num);
        }
        assert(c[i][j] == c[k][ti]);
    }
}

proof fn lemma_token_failure(
    t: Seq<char>,
    size: nat,
    rev: bool,
    np: Seq<Seq<char>>,
    k: int,
    pview: Seq<char>,
    done: Seq<Seq<int>>,
    cur: Seq<int>,
    ti: int,
    num: int,
)
    requires
        np == cycle_pieces(t),
        0 <= k < np.len(),
        np[k] == pview,
        k == done.len(),
        forall|i: int|
            0 <= i < k ==> piece_readable(#[trigger] np[i], rev) && done[i] == piece_values(
                np[i],
                rev,
            ),
        cur.len() == ti,
        0 <= ti < piece_tokens(pview).len(),
        forall|j: int|
            0 <= j < ti ==> cycle_token_value(piece_tokens(pview)[j], rev) == Some(#[trigger] cur[j]),
        cycle_token_value(piece_tokens(pview)[ti], rev) is None || (cycle_token_value(
            piece_tokens(pview)[ti],
            rev,
        ) == Some(num) && (occurs(done.push(cur), num) || !nameable(num, size, rev))),
    ensures
        !cycles_valid(t, size, rev),
{
    if cycles_readable(t, rev) {
        let c = cycles_of(t, rev);
        let w = done.push(cur);
        assert(piece_readable(np[k], rev));
        assert(cycle_token_value(piece_tokens(pview)[ti], rev) is Some);
        assert forall|i: int| 0 <= i < w.len() - 1 implies c[i] == w[i] by {
            assert(c[i] =~= piece_values(np[i], rev));
        }
        assert(c[k] == piece_values(pview, rev));
        assert forall|j: int| 0 <= j < ti implies c[k][j] == w.last()[j] by {
            assert(cycle_token_value(piece_tokens(pview)[j], rev) == Some(cur[j]));
        }
        lemma_repeat_invalid(c, w, size, rev, num, ti);
    }
}

/// The cycles named before element `j` of cycle text `k` (elements of a permutation that
/// does not reverse).
pub open spec fn prefix_cycles(t: Seq<char>, k: int, j: int) -> Seq<Seq<int>> {
    Seq::new(k as nat, |i: int| piece_values(cycle_pieces(t)[i], false)).push(
        piece_values(cycle_pieces(t)[k], false).take(j),
    )
}

/// The error for the first bad element of cycle text `k` from element `j` on: one that
/// is not a number, one out of `1..=size`, or one named before.
pub open spec fn token_error_from(t: Seq<char>, size: nat, k: int, j: int) -> Option<Seq<char>>
    decreases piece_tokens(cycle_pieces(t)[k]).len() - j,
{
    let toks = piece_tokens(cycle_pieces(t)[k]);
    if j < 0 || j >= toks.len() {
        None
    } else {
        match cycle_token_value(toks[j], false) {
            None => Some("Invalid number in permutation"@),
            Some(v) => if !nameable(v, size, false) {
                Some("Permutation element out of range"@)
            } else if occurs(prefix_cycles(t, k, j), v) {
                Some("Permutation is not one-to-one"@)
            } else {
                token_error_from(t, size, k, j + 1)
            },
        }
    }
}

/// The error of a cycle notation that does not reverse, from cycle text `k` on: a text
/// that does not open with `(`, or the first bad element.
pub open spec fn cycle_error_from(t: Seq<char>, size: nat, k: int) -> Option<Seq<char>>
    decreases cycle_pieces(t).len() - k,
{
    if k < 0 || k >= cycle_pieces(t).len() {
        None
    } else if !piece_opens(cycle_pieces(t)[k]) {
        Some("Invalid parentheses in permutation"@)
    } else {
        match token_error_from(t, size, k, 0) {
            Some(e) => Some(e),
            None => cycle_error_from(t, size, k + 1),
        }
    }
}

proof fn lemma_prefix_cycles(
    t: Seq<char>,
    np: Seq<Seq<char>>,
    k: int,
    pview: Seq<char>,
    done: Seq<Seq<int>>,
    cur: Seq<int>,
    ti: int,
)
    requires
        np == cycle_pieces(t),
        0 <= k < np.len(),
        np[k] == pview,
        k == done.len(),
        forall|i: int|
            0 <= i < k ==> piece_readable(#[trigger] np[i], false) && done[i] == piece_values(
                np[i],
                false,
            ),
        cur.len() == ti,
        0 <= ti <= piece_tokens(pview).len(),
        forall|j: int|
            0 <= j < ti ==> cycle_token_value(piece_tokens(pview)[j], false) == Some(#[trigger] cur[j]),
    ensures
        done.push(cur) == prefix_cycles(t, k, ti),
{
    let p = prefix_cycles(t, k, ti);
    assert forall|i: int| 0 <= i < k implies p[i] == done[i] by {}
    assert(p[k] =~= cur) by {
        assert forall|j: int| 0 <= j < ti implies p[k][j] == cur[j] by {
            assert(cycle_token_value(piece_tokens(pview)[j], false) == Some(cur[j]));
        }
    }
    assert(done.push(cur) =~= p);
}

/// No element is named in the cycles together with its negation.
pub open spec fn no_negated_pairs(c: Seq<Seq<int>>) -> bool {
    forall|i: int, j: int| 0 <= i < c.len() && 0 <= j < c[i].len() ==> !occurs(c, -#[trigger] c[i][j])
}

proof fn lemma_reversal_failure(
    t: Seq<char>,
    size: nat,
    rev: bool,
    np: Seq<Seq<char>>,
    k: int,
    pview: Seq<char>,
    done: Seq<Seq<int>>,
    cur: Seq<int>,
    ti: int,
    num: int,
)
    requires
        np == cycle_pieces(t),
        0 <= k < np.len(),
        np[k] == pview,
        k == done.len(),
        forall|i: int|
            0 <= i < k ==> piece_readable(#[trigger] np[i], rev) && done[i] == piece_values(
                np[i],
                rev,
            ),
        cur.len() == ti,
        1 <= ti < piece_tokens(pview).len(),
        forall|j: int|
            0 <= j < ti ==> cycle_token_value(piece_tokens(pview)[j], rev) == Some(#[trigger] cur[j]),
        cycle_token_value(piece_tokens(pview)[ti], rev) == Some(num),
        num == -cur.last() || occurs(done.push(cur), -cur.last()),
    ensures
        !(cycles_valid(t, size, rev) && no_negated_pairs(cycles_of(t, rev))),
{
    if cycles_readable(t, rev) {
        let c = cycles_of(t, rev);
        let w = done.push(cur);
        assert(piece_readable(np[k], rev));
        assert forall|i: int| 0 <= i < k implies c[i] == w[i] by {
            assert(c[i] =~= piece_values(np[i], rev));
        }
        assert(c[k] == piece_values(pview, rev));
        assert forall|j: int| 0 <= j < ti implies c[k][j] == cur[j] by {
            assert(cycle_token_value(piece_tokens(pview)[j], rev) == Some(cur[j]));
        }
        assert(c[k][ti] == num);
        let last = cur.last();
        assert(c[k][ti - 1] == last);
        if num == -last {
            assert(occurs(c, -c[k][ti - 1]));
        } else {
            let (i, j) = choose|i: int, j: int| 0 <= i < w.len() && 0 <= j < w[i].len() && #[trigger] w[i][j] == -last;
            if i < k {
                assert(c[i][j] == -last);
            } else {
                assert(c[k][j] == -last);
            }
            assert(occurs(c, -c[k][ti - 1]));
        }
    }
}

impl Permutation {
    #[verifier::rlimit(60)]
    fn parse_cycle_mapping(&mut self, perm: &Vec<char>, used: &mut Vec<bool>) -> (r: Result<
        (),
        String,
    >)
        requires
            building(old(self)@, old(used)@, Seq::empty()),
        ensures
            final(self)@.size == old(self)@.size,
            final(self)@.reverses == old(self)@.reverses,
            r is Ok ==> cycles_valid(perm@, old(self)@.size, old(self)@.reverses) && building(
                final(self)@,
                final(used)@,
                cycles_of(perm@, old(self)@.reverses),
            ),
            !cycles_valid(perm@, old(self)@.size, old(self)@.reverses) ==> r is Err,
            r is Err && !old(self)@.reverses ==> !cycles_valid(perm@, old(self)@.size, false),
            r is Err && old(self)@.reverses ==> !(cycles_valid(perm@, old(self)@.size, true)
                && no_negated_pairs(cycles_of(perm@, true))),
            !old(self)@.reverses ==> (r matches Err(m) ==> cycle_error_from(perm@, old(self)@.size, 0)
                == Some(m@)),
    {
        let ghost size = self@.size;
        let ghost rev = self@.reverses;
        let ghost t = perm@;
        let pieces = split_chars(perm, ')');
        let ghost sp = split_on(perm@, ')');
        let ghost np = cycle_pieces(t);
        let ghost mut done: Seq<Seq<int>> = Seq::empty();
        let mut pi: usize = 0;
        proof {
            assert(sp.take(0) =~= Seq::<Seq<char>>::empty());
        }
        while pi < pieces.len()
            invariant
                views(pieces@) == sp,
                sp == split_on(t, ')'),
                np == cycle_pieces(t),
                np == nonblank_pieces(sp),
                t == perm@,
                self@.size == size,
                self@.reverses == rev,
                size == old(self)@.size,
                rev == old(self)@.reverses,
                pi <= pieces.len(),
                done.len() == nonblank_pieces(sp.take(pi as int)).len(),
                forall|i: int|
                    0 <= i < done.len() ==> piece_readable(
                        #[trigger] nonblank_pieces(sp.take(pi as int))[i],
                        rev,
                    ) && done[i] == piece_values(nonblank_pieces(sp.take(pi as int))[i], rev),
                building(self@, used@, done),
                !rev ==> cycle_error_from(t, size, 0) == cycle_error_from(t, size, done.len() as int),
            decreases pieces.len() - pi,
        {
            let ghost pview = sp[pi as int];
            assert(pieces@[pi as int]@ == pview);
            let trimmed = trim_chars(&pieces[pi]);
            proof {
                lemma_nonblank_step(sp, pi as int);
                lemma_nonblank_prefix(sp, pi as int, pi as int + 1);
                lemma_nonblank_prefix(sp, pi as int + 1, sp.len() as int);
                assert(sp.take(sp.len() as int) =~= sp);
            }
            if trimmed.len() == 0 {
                pi = pi + 1;
                continue;
            }
            let ghost k = done.len() as int;
            assert(np[k] == pview);
            if trimmed[0] != '(' {
                assert(!piece_opens(pview));
                assert(!rev ==> cycle_error_from(t, size, k) == Some("Invalid parentheses in permutation"@));
                assert(!piece_readable(np[k], rev));
                return Err("Invalid parentheses in permutation".to_owned());
            }
            let body = slice_of(&trimmed, 1, trimmed.len());
            assert(body@ == trim(pview).drop_first());
            let toks = split_chars(&body, ',');
            assert(views(toks@) == piece_tokens(pview));
            let mut last_num: i32 = -(self.size as i32 + 1);
            let ghost mut cur: Seq<int> = Seq::empty();
            proof {
                lemma_building_open(self@, used@, done);
                assert(done.push(cur) =~= done.push(Seq::empty()));
            }
            let mut ti: usize = 0;
            while ti < toks.len()
                invariant
                    views(toks@) == piece_tokens(pview),
                    t == perm@,
                    piece_opens(pview),
                    np == cycle_pieces(t),
                    k == done.len(),
                    np.len() > k,
                    np[k] == pview,
                    forall|i: int|
                        0 <= i < k ==> piece_readable(#[trigger] np[i], rev) && done[i]
                            == piece_values(np[i], rev),
                    self@.size == size,
                    self@.reverses == rev,
                    size == old(self)@.size,
                    rev == old(self)@.reverses,
                    ti <= toks.len(),
                    cur.len() == ti,
                    forall|j: int|
                        0 <= j < ti ==> cycle_token_value(piece_tokens(pview)[j], rev) == Some(
                            #[trigger] cur[j],
                        ),
                    ti == 0 ==> last_num == -(size + 1),
                    ti > 0 ==> last_num == cur.last(),
                    building(self@, used@, done.push(cur)),
                    !rev ==> cycle_error_from(t, size, 0) == match token_error_from(t, size, k, ti as int) {
                        Some(e) => Some(e),
                        None => cycle_error_from(t, size, k + 1),
                    },
                decreases toks.len() - ti,
            {
                let ghost w = done.push(cur);
                proof {
                    if ti > 0 {
                        assert(w[k][ti - 1] == cur.last());
                        assert(occurs(w, cur.last()));
                        lemma_occurs_nameable(self@, w, cur.last());
                    }
                }
                assert(toks@[ti as int]@ == piece_tokens(pview)[ti as int]);
                let num = match self.parse_cycle_element(&toks[ti]) {
                    Ok(n) => n,
                    Err(e) => {
                        proof {
                            let v = cycle_token_value(piece_tokens(pview)[ti as int], rev);
                            lemma_token_failure(t, size, rev, np, k, pview, done, cur, ti as int, if v is Some { v->0 } else { 0 });
                            assert(!cycles_valid(perm@, old(self)@.size, old(self)@.reverses));
                            if !rev {
                                assert(token_error_from(t, size, k, ti as int) == Some("Invalid number in permutation"@));
                            }
                        }
                        return Err(e);
                    },
                };
                let ghost before = self@;
                let ghost used_before = used@;
                let res = if self.reverses {
                    self.add_reversing_cycle_element(num, last_num, used)
                } else {
                    self.add_cycle_element(num, last_num, used)
                };
                match res {
                    Ok(()) => {},
                    Err(e) => {
                        proof {
                            if !rev {
                                if nameable(num as int, size, rev) {
                                    assert(before.idx(num as int) == num - 1);
                                    assert(used_before[before.idx(num as int)]);
                                    lemma_nameable_in_bounds(before, num as int);
                                    assert(occurs(w, num as int));
                                }
                                lemma_token_failure(t, size, rev, np, k, pview, done, cur, ti as int, num as int);
                                assert(!cycles_valid(perm@, old(self)@.size, old(self)@.reverses));
                                lemma_prefix_cycles(t, np, k, pview, done, cur, ti as int);
                                assert(token_error_from(t, size, k, ti as int) == Some(e@));
                            } else {
                                if !nameable(num as int, size, true) || used_before[before.idx(num as int)] {
                                    if nameable(num as int, size, true) {
                                        lemma_nameable_in_bounds(before, num as int);
                                        assert(occurs(w, num as int));
                                    }
                                    lemma_token_failure(t, size, rev, np, k, pview, done, cur, ti as int, num as int);
                                } else {
                                    let last = cur.last();
                                    assert(last_num == last);
                                    lemma_occurs_nameable(before, w, last);
                                    lemma_nameable_in_bounds(before, -last);
                                    if before.idx(-last) != before.idx(num as int) {
                                        assert(used_before[before.idx(-last)]);
                                        assert(occurs(w, -last));
                                    } else {
                                        assert(num == -last);
                                    }
                                    lemma_reversal_failure(t, size, rev, np, k, pview, done, cur, ti as int, num as int);
                                }
                            }
                        }
                        return Err(e);
                    },
                }
                proof {
                    if !rev {
                        lemma_prefix_cycles(t, np, k, pview, done, cur, ti as int);
                        lemma_nameable_in_bounds(before, num as int);
                        assert(!occurs(w, num as int));
                        assert(token_error_from(t, size, k, ti as int) == token_error_from(t, size, k, ti + 1));
                    }
                    assert(w.drop_last() =~= done);
                    assert(w.last() == cur);
                    lemma_building_extend(before, used_before, w, num as int, self@, used@);
                    assert(w.drop_last().push(w.last().push(num as int)) =~= done.push(
                        cur.push(num as int),
                    ));
                }
                proof {
                    cur = cur.push(num as int);
                }
                last_num = num;
                ti = ti + 1;
            }
            proof {
                assert forall|j: int| 0 <= j < piece_tokens(pview).len() implies (#[trigger] cycle_token_value(piece_tokens(pview)[j], rev)) is Some by {
                    assert(cycle_token_value(piece_tokens(pview)[j], rev) == Some(cur[j]));
                }
                assert(piece_readable(pview, rev));
                assert(cur =~= piece_values(pview, rev));
                let nk1 = nonblank_pieces(sp.take(pi as int + 1));
                assert(nk1.len() == k + 1);
                assert forall|i: int| 0 <= i <= k implies piece_readable(#[trigger] nk1[i], rev)
                    && done.push(cur)[i] == piece_values(nk1[i], rev) by {
                    if i < k {
                        assert(nk1[i] == np[i]);
                    } else {
                        assert(nk1[i] == pview);
                    }
                }
            }
            proof {
                done = done.push(cur);
            }
            pi = pi + 1;
        }
        proof {
            assert(sp.take(pi as int) =~= sp);
            assert(done =~= cycles_of(t, rev));
            assert(cycles_readable(t, rev));
        }
        Ok(())
    }
}

impl Permutation {
    fn parse_explicit_mapping(&mut self, perm: &Vec<char>, used: &mut Vec<bool>) -> (r: Result<
        (),
        String,
    >)
        requires
            building(old(self)@, old(used)@, Seq::empty()),
        ensures
            final(self)@.size == old(self)@.size,
            final(self)@.reverses == old(self)@.reverses,
            final(self)@.shaped(),
            final(used)@.len() == final(self)@.mapping.len(),
            r is Ok <==> explicit_valid(perm@, old(self)@.size),
            r matches Err(m) ==> m@ == explicit_error(perm@, old(self)@.size),
            r is Ok ==> forall|e: int|
                1 <= e <= old(self)@.size ==> #[trigger] final(self)@.app(e) == explicit_value(
                    perm@,
                    e - 1,
                ) && final(used)@[final(self)@.idx(e)],
            r is Ok ==> forall|e: int|
                #[trigger] final(self)@.in_bounds(e) && e <= 0 ==> final(self)@.app(e) == 0 && (e
                    != 0 ==> !final(used)@[final(self)@.idx(e)]),
    {
        let ghost t = perm@;
        let ghost v0 = self@;
        let tokens = split_chars(perm, ',');
        assert(views(tokens@) == explicit_tokens(t));
        if tokens.len() != self.size && self.size != 0 {
            let mut message = chars_of("Invalid permutation format: expected ");
            push_decimal(&mut message, self.size as u64);
            let tail = chars_of(" elements");
            push_all(&mut message, &tail);
            return Err(string_from_chars(&message));
        }
        let mut index: usize = 0;
        while index < tokens.len()
            invariant
                views(tokens@) == explicit_tokens(t),
                t == perm@,
                tokens.len() == self@.size || self@.size == 0,
                self@.size == v0.size,
                self@.reverses == v0.reverses,
                v0 == old(self)@,
                self@.shaped(),
                used@.len() == self@.mapping.len(),
                index <= tokens.len(),
                forall|k: int|
                    0 <= k < index ==> #[trigger] parsed_i32(trim(explicit_tokens(t)[k])) is Some,
                forall|k: int| 0 <= k < index ==> 1 <= #[trigger] explicit_value(t, k) <= v0.size,
                forall|k: int, m: int|
                    0 <= k < m < index ==> explicit_value(t, k) != explicit_value(t, m),
                explicit_error(t, v0.size) == explicit_error_from(t, v0.size, index as int),
                forall|e: int|
                    #[trigger] self@.in_bounds(e) ==> self@.app(e) == (if 1 <= e <= index {
                        explicit_value(t, e - 1)
                    } else {
                        0
                    }),
                forall|e: int|
                    #[trigger] self@.in_bounds(e) && e != 0 ==> (used@[self@.idx(e)] <==> (1 <= e
                        && exists|k: int| 0 <= k < index && explicit_value(t, k) == e)),
            decreases tokens.len() - index,
        {
            assert(tokens@[index as int]@ == explicit_tokens(t)[index as int]);
            let tok = trim_chars(&tokens[index]);
            let num = match parse_i32(&tok) {
                Some(n) => n,
                None => {
                    assert(parsed_i32(trim(explicit_tokens(t)[index as int])) is None);
                    return Err("Invalid number in permutation".to_owned());
                },
            };
            assert(explicit_value(t, index as int) == num);
            if num < 1 || num > self.size as i32 {
                assert(!(1 <= explicit_value(t, index as int) <= v0.size));
                return Err("Permutation element out of range".to_owned());
            }
            let ghost before = self@;
            proof {
                if exists|k: int| 0 <= k < index && explicit_value(t, k) == explicit_value(t, index as int) {
                    let k = choose|k: int| 0 <= k < index && explicit_value(t, k) == explicit_value(t, index as int);
                    assert(1 <= k + 1 <= index);
                    assert(before.in_bounds(num as int));
                    assert(used@[before.idx(num as int)]);
                }
            }
            let used_index: usize = if self.reverses {
                self.reverse_index(num)
            } else {
                (num - 1) as usize
            };
            assert(used_index == before.idx(num as int));
            assert(before.in_bounds(num as int));
            if used[used_index] {
                proof {
                    let k = choose|k: int| 0 <= k < index && explicit_value(t, k) == num;
                    assert(explicit_value(t, k) == explicit_value(t, index as int));
                    assert(explicit_error_from(t, v0.size, index as int) == "Permutation is not one-to-one"@);
                }
                return Err("Permutation is not one-to-one".to_owned());
            }
            used[used_index] = true;
            let target: usize = if self.reverses {
                self.reverse_index(index as i32 + 1)
            } else {
                index
            };
            assert(target == before.idx(index as int + 1));
            self.mapping[target] = num;
            index = index + 1;
            proof {
                assert forall|e: int| #[trigger] self@.in_bounds(e) implies self@.app(e) == (if 1
                    <= e <= index {
                    explicit_value(t, e - 1)
                } else {
                    0
                }) by {
                    assert(before.in_bounds(e));
                    if e != index as int {
                        assert(before.idx(e) != target);
                    }
                }
                assert forall|e: int| #[trigger] self@.in_bounds(e) && e != 0 implies (
                used@[self@.idx(e)] <==> (1 <= e && exists|k: int|
                    0 <= k < index && explicit_value(t, k) == e)) by {
                    assert(before.in_bounds(e));
                    if e == num {
                        assert(explicit_value(t, index - 1) == e);
                    } else {
                        assert(before.idx(e) != used_index);
                        if exists|k: int| 0 <= k < index && explicit_value(t, k) == e {
                            let k = choose|k: int| 0 <= k < index && explicit_value(t, k) == e;
                            assert(k < index - 1);
                        }
                    }
                }
            }
        }
        proof {
            let vals = Seq::new(v0.size, |k: int| explicit_value(t, k));
            if v0.size > 0 {
                assert(vals.no_duplicates()) by {
                    assert forall|a: int, b: int|
                        0 <= a < vals.len() && 0 <= b < vals.len() && a != b implies vals[a]
                        != vals[b] by {
                        if a < b {
                            assert(explicit_value(t, a) != explicit_value(t, b));
                        } else {
                            assert(explicit_value(t, b) != explicit_value(t, a));
                        }
                    }
                }
                lemma_pigeonhole(vals, v0.size as int);
            }
            assert forall|e: int| 1 <= e <= v0.size implies #[trigger] self@.app(e)
                == explicit_value(perm@, e - 1) && used@[self@.idx(e)] by {
                assert(self@.in_bounds(e));
                assert(vals.contains(e));
                let k = choose|k: int| 0 <= k < vals.len() && vals[k] == e;
                assert(explicit_value(t, k) == e);
            }
        }
        Ok(())
    }
}

proof fn lemma_successor_of_holds(v: PermutationView, c: Seq<Seq<int>>, e: int)
    requires
        cycles_hold(v, c),
        occurs(c, e),
    ensures
        v.app(e) == successor(c, e),
{
    lemma_position(c, e);
    let (i, j) = position(c, e);
    assert(v.app(c[i][j]) == c[i][(j + 1) % (c[i].len() as int)]);
}

proof fn lemma_successor_facts(c: Seq<Seq<int>>, size: nat, rev: bool, a: int, b: int)
    requires
        cycles_distinct(c, size, rev),
        occurs(c, a),
        occurs(c, b),
        a != b,
    ensures
        occurs(c, successor(c, a)),
        nameable(successor(c, a), size, rev),
        successor(c, a) != successor(c, b),
{
    lemma_position(c, a);
    lemma_position(c, b);
    let (i1, j1) = position(c, a);
    let (i2, j2) = position(c, b);
    let l1 = c[i1].len() as int;
    let l2 = c[i2].len() as int;
    let n1 = (j1 + 1) % l1;
    let n2 = (j2 + 1) % l2;
    if j1 + 1 < l1 {
        vstd::arithmetic::div_mod::lemma_small_mod((j1 + 1) as nat, l1 as nat);
    } else {
        vstd::arithmetic::div_mod::lemma_mod_self_0(l1);
    }
    if j2 + 1 < l2 {
        vstd::arithmetic::div_mod::lemma_small_mod((j2 + 1) as nat, l2 as nat);
    } else {
        vstd::arithmetic::div_mod::lemma_mod_self_0(l2);
    }
    assert(0 <= n1 < l1);
    assert(occurs(c, c[i1][n1]));
    assert(nameable(c[i1][n1], size, rev));
    if i1 == i2 && n1 == n2 {
        assert(j1 == j2);
    } else {
        assert(c[i1][n1] != c[i2][n2]);
    }
}

proof fn lemma_successor_in(c: Seq<Seq<int>>, e: int)
    requires
        occurs(c, e),
    ensures
        occurs(c, successor(c, e)),
{
    lemma_position(c, e);
    let (i, j) = position(c, e);
    let l = c[i].len() as int;
    if j + 1 < l {
        vstd::arithmetic::div_mod::lemma_small_mod((j + 1) as nat, l as nat);
    } else {
        vstd::arithmetic::div_mod::lemma_mod_self_0(l);
    }
    let n = (j + 1) % l;
    assert(c[i][n] == successor(c, e));
}

#[verifier::spinoff_prover]
#[verifier::rlimit(50)]
proof fn lemma_explicit_result(p: PermutationView, t: Seq<char>)
    requires
        p.shaped(),
        explicit_valid(t, p.size),
        forall|e: int|
            1 <= e <= p.size ==> #[trigger] p.app(e) == explicit_value(t, e - 1) && (p.reverses
                ==> p.app(-e) == -explicit_value(t, e - 1)),
        p.reverses ==> p.app(0) == 0,
    ensures
        p.in_range(),
        p.values_in_range(),
        !p.reverses ==> p.is_bijection(),
{
    assert forall|e: int| #[trigger] p.is_elem(e) implies p.is_elem(p.app(e)) by {
        if e > 0 {
            assert(1 <= explicit_value(t, e - 1) <= p.size);
        } else if e < 0 {
            assert(p.app(-e) == explicit_value(t, -e - 1));
            assert(1 <= explicit_value(t, -e - 1) <= p.size);
        }
    }
    assert forall|i: int| 0 <= i < p.mapping.len() implies #[trigger] p.is_elem(p.mapping[i] as int) by {
        let e = p.elem_at(i);
        assert(p.is_elem(e));
        assert(p.idx(e) == i);
    }
    if !p.reverses {
        assert forall|a: int, b: int| p.is_elem(a) && p.is_elem(b) && a != b implies #[trigger] p.app(a) != #[trigger] p.app(b) by {
            if a < b {
                assert(explicit_value(t, a - 1) != explicit_value(t, b - 1));
            } else {
                assert(explicit_value(t, b - 1) != explicit_value(t, a - 1));
            }
        }
    }
}

proof fn lemma_image_in_range(p: PermutationView, c: Seq<Seq<int>>)
    requires
        p.shaped(),
        cycles_distinct(c, p.size, p.reverses),
        forall|e: int| #[trigger] p.is_elem(e) ==> p.app(e) == cycle_image(c, e, p.reverses),
    ensures
        p.in_range(),
        p.values_in_range(),
{
    assert forall|e: int| #[trigger] p.is_elem(e) implies p.is_elem(p.app(e)) by {
        if occurs(c, e) {
            lemma_successor_in(c, e);
            lemma_occurs_nameable(p, c, successor(c, e));
        } else if p.reverses && occurs(c, -e) {
            lemma_successor_in(c, -e);
            lemma_occurs_nameable(p, c, successor(c, -e));
        }
    }
    assert forall|i: int| 0 <= i < p.mapping.len() implies #[trigger] p.is_elem(p.mapping[i] as int) by {
        let e = p.elem_at(i);
        assert(p.is_elem(e));
        assert(p.idx(e) == i);
    }
}

proof fn lemma_image_bijection(p: PermutationView, c: Seq<Seq<int>>)
    requires
        p.shaped(),
        !p.reverses,
        cycles_distinct(c, p.size, false),
        forall|e: int| #[trigger] p.is_elem(e) ==> p.app(e) == cycle_image(c, e, false),
    ensures
        p.is_bijection(),
{
    lemma_image_in_range(p, c);
    assert forall|a: int, b: int| p.is_elem(a) && p.is_elem(b) && a != b implies #[trigger] p.app(a) != #[trigger] p.app(b) by {
        if occurs(c, a) && occurs(c, b) {
            lemma_successor_facts(c, p.size, false, a, b);
        } else if occurs(c, a) {
            lemma_successor_in(c, a);
        } else if occurs(c, b) {
            lemma_successor_in(c, b);
        }
    }
}

impl Permutation {
    /// A fresh table for reading: all entries 0, nothing marked used.
    fn blank_table(size: usize, reverses: bool) -> (r: (Self, Vec<bool>))
        requires
            size <= MAX_PERMUTATION_SIZE,
        ensures
            r.0@.size == size,
            r.0@.reverses == reverses,
            building(r.0@, r.1@, Seq::empty()),
    {
        let n: usize = if reverses { size * 2 + 1 } else { size };
        let mut mapping: Vec<i32> = Vec::new();
        let mut used: Vec<bool> = Vec::new();
        let mut k: usize = 0;
        while k < n
            invariant
                k <= n,
                mapping.len() == k,
                used.len() == k,
                forall|j: int| 0 <= j < k ==> mapping@[j] == 0 && !used@[j],
            decreases n - k,
        {
            mapping.push(0);
            used.push(false);
            k = k + 1;
        }
        let permutation = Self { size, mapping, reverses };
        let ghost c0: Seq<Seq<int>> = Seq::empty();
        proof {
            assert forall|e: int| #[trigger] permutation@.in_bounds(e) && !occurs(c0, e) implies permutation@.app(e) == 0 by {
            }
            assert forall|e: int| permutation@.in_bounds(e) && e != 0 implies (used@[permutation@.idx(e)] <==> #[trigger] occurs(c0, e)) by {
            }
        }
        (permutation, used)
    }

    fn build_explicit(size: usize, reverses: bool, chars: &Vec<char>) -> (r: Result<Self, String>)
        requires
            size <= MAX_PERMUTATION_SIZE,
        ensures
            r is Ok <==> explicit_valid(chars@, size as nat),
            r matches Err(m) ==> m@ == explicit_error(chars@, size as nat),
            r matches Ok(p) ==> p@.size == size && p@.reverses == reverses && p@.shaped()
                && p@.values_in_range() && p@.in_range() && (!reverses ==> p@.is_bijection()) && (
                reverses ==> p@.app(0) == 0) && forall|e: int|
                1 <= e <= size ==> #[trigger] p@.app(e) == explicit_value(chars@, e - 1) && (
                reverses ==> p@.app(-e) == -explicit_value(chars@, e - 1)),
    {
        let (mut permutation, mut used) = Self::blank_table(size, reverses);
        let res = permutation.parse_explicit_mapping(&chars, &mut used);
        if res.is_err() {
            return Err(res.unwrap_err());
        }
        let ghost after = permutation@;
        proof {
            assert(res is Ok);
            assert(explicit_valid(chars@, size as nat));
            assert(after.size == size);
            assert forall|e: int| 1 <= e <= size implies #[trigger] after.app(e) == explicit_value(chars@, e - 1) && used@[after.idx(e)] by {
                assert(1 <= e <= after.size);
            }
        }
        if reverses {
            let mut elem: usize = 1;
            while elem <= size
                invariant
                    1 <= elem <= size + 1,
                    size <= MAX_PERMUTATION_SIZE,
                    permutation@.size == size,
                    permutation@.reverses,
                    permutation@.shaped(),
                    used@.len() == permutation@.mapping.len(),
                    after.size == size,
                    after.reverses,
                    after.shaped(),
                    forall|e: int|
                        1 <= e <= size ==> #[trigger] after.app(e) == explicit_value(
                            chars@,
                            e - 1,
                        ) && used@[after.idx(e)],
                    forall|e: int|
                        #[trigger] after.in_bounds(e) && e <= 0 ==> after.app(e) == 0 && (e
                            != 0 ==> !used@[after.idx(e)]),
                    explicit_valid(chars@, size as nat),
                    forall|e: int|
                        #[trigger] permutation@.in_bounds(e) ==> permutation@.app(e) == (if e
                            <= -(elem as int) || e >= 0 {
                            after.app(e)
                        } else {
                            -after.app(-e)
                        }),
                decreases size + 1 - elem,
            {
                let ghost before = permutation@;
                let pos = permutation.reverse_index(elem as i32);
                let neg = permutation.reverse_index(-(elem as i32));
                assert(after.in_bounds(elem as int));
                assert(after.in_bounds(-(elem as int)));
                assert(after.app(elem as int) == explicit_value(chars@, elem - 1));
                assert(permutation@.in_bounds(elem as int));
                assert(permutation@.in_bounds(-(elem as int)));
                assert(used@[pos as int]);
                assert(!used@[neg as int]);
                let value = permutation.mapping[pos];
                assert(value == after.app(elem as int));
                assert(1 <= explicit_value(chars@, elem as int - 1) <= size);
                permutation.mapping[neg] = -value;
                elem = elem + 1;
                proof {
                    assert forall|e: int| #[trigger] permutation@.in_bounds(e) implies permutation@.app(e) == (if e
                        <= -(elem as int) || e >= 0 {
                        after.app(e)
                    } else {
                        -after.app(-e)
                    }) by {
                        assert(before.in_bounds(e));
                        if e != -(elem as int - 1) {
                            assert(before.idx(e) != neg);
                        }
                    }
                }
            }
        }
        proof {
            let p = permutation@;
            assert(p.reverses == reverses);
            assert(p.size == size);
            assert forall|e: int| 1 <= e <= p.size implies #[trigger] p.app(e) == explicit_value(chars@, e - 1)
                && (p.reverses ==> p.app(-e) == -explicit_value(chars@, e - 1)) by {
                assert(after.in_bounds(e));
                assert(p.in_bounds(e));
                assert(after.app(e) == explicit_value(chars@, e - 1));
                assert(p.app(e) == after.app(e));
                if reverses {
                    assert(p.in_bounds(-e));
                    assert(after.in_bounds(-e));
                    assert(-(-e) == e);
                    assert(p.app(-e) == -after.app(e));
                }
            }
            if reverses {
                assert(p.in_bounds(0));
                assert(after.in_bounds(0));
                assert(p.app(0) == 0);
            }
            lemma_explicit_result(p, chars@);
        }
        Ok(permutation)
    }

    fn build_cycles(size: usize, reverses: bool, chars: &Vec<char>) -> (r: Result<Self, String>)
        requires
            size <= MAX_PERMUTATION_SIZE,
        ensures
            !cycles_valid(chars@, size as nat, reverses) ==> r is Err,
            !reverses ==> (r is Ok <==> cycles_valid(chars@, size as nat, false)),
            reverses && cycles_valid(chars@, size as nat, true) && no_negated_pairs(cycles_of(chars@, true))
                ==> r is Ok,
            !reverses ==> (r matches Err(m) ==> cycle_error_from(chars@, size as nat, 0) == Some(m@)),
            r matches Ok(p) ==> p@.size == size && p@.reverses == reverses && p@.shaped()
                && p@.values_in_range() && p@.in_range() && (!reverses ==> p@.is_bijection()) && (
                reverses ==> p@.app(0) == 0) && forall|e: int|
                #[trigger] p@.is_elem(e) ==> p@.app(e) == cycle_image(
                    cycles_of(chars@, reverses),
                    e,
                    reverses,
                ),
    {
        let (mut permutation, mut used) = Self::blank_table(size, reverses);
        match permutation.parse_cycle_mapping(&chars, &mut used) {
            Ok(()) => {},
            Err(e) => {
                return Err(e);
            },
        }
        let ghost c = cycles_of(chars@, reverses);
        let ghost after = permutation@;
        proof {
            assert forall|e: int| #[trigger] after.is_elem(e) && occurs(c, e) implies after.app(e) == successor(c, e) by {
                lemma_successor_of_holds(after, c, e);
            }
        }
        if reverses {
            let mut elem: usize = 1;
            while elem <= size
                invariant
                    1 <= elem <= size + 1,
                    size <= MAX_PERMUTATION_SIZE,
                    permutation@.size == size,
                    permutation@.reverses,
                    permutation@.shaped(),
                    after.size == size,
                    after.reverses,
                    building(after, used@, c),
                    forall|e: int| #[trigger] after.is_elem(e) && occurs(c, e) ==> after.app(e) == successor(c, e),
                    forall|e: int|
                        #[trigger] permutation@.in_bounds(e) ==> permutation@.app(e) == (if (e
                            < elem && e > -(elem as int)) {
                            cycle_image(c, e, true)
                        } else {
                            after.app(e)
                        }),
                decreases size + 1 - elem,
            {
                let ghost before = permutation@;
                let pos = permutation.reverse_index(elem as i32);
                let neg = permutation.reverse_index(-(elem as i32));
                assert(after.in_bounds(elem as int));
                assert(after.in_bounds(-(elem as int)));
                let up = used[pos];
                let un = used[neg];
                assert(up == occurs(c, elem as int));
                assert(un == occurs(c, -(elem as int)));
                assert(permutation@.in_bounds(elem as int));
                assert(permutation@.in_bounds(-(elem as int)));
                if up && !un {
                    let value = permutation.mapping[pos];
                    proof {
                        lemma_occurs_nameable(after, c, elem as int);
                        assert(after.is_elem(elem as int));
                        assert(value == successor(c, elem as int));
                        lemma_successor_in(c, elem as int);
                        lemma_occurs_nameable(after, c, successor(c, elem as int));
                    }
                    permutation.mapping[neg] = -value;
                } else if !up && un {
                    let value = permutation.mapping[neg];
                    proof {
                        lemma_occurs_nameable(after, c, -(elem as int));
                        assert(after.is_elem(-(elem as int)));
                        assert(value == successor(c, -(elem as int)));
                        lemma_successor_in(c, -(elem as int));
                        lemma_occurs_nameable(after, c, successor(c, -(elem as int)));
                    }
                    permutation.mapping[pos] = -value;
                } else if !up && !un {
                    permutation.mapping[neg] = 0;
                    permutation.mapping[pos] = 0;
                }
                elem = elem + 1;
                proof {
                    assert forall|e: int| #[trigger] permutation@.in_bounds(e) implies permutation@.app(e) == (if (e
                        < elem && e > -(elem as int)) {
                        cycle_image(c, e, true)
                    } else {
                        after.app(e)
                    }) by {
                        assert(before.in_bounds(e));
                        if e != elem - 1 && e != -(elem - 1) {
                            assert(before.idx(e) != neg);
                            assert(before.idx(e) != pos);
                        } else if e == elem - 1 {
                            assert(after.is_elem(e));
                            if up {
                                assert(cycle_image(c, e, true) == successor(c, e));
                            }
                        } else {
                            assert(after.is_elem(e));
                            assert(-e == elem - 1);
                            if un {
                                assert(cycle_image(c, e, true) == successor(c, e));
                            }
                        }
                    }
                }
            }
            proof {
                let p = permutation@;
                assert(after.in_bounds(0));
                assert(!occurs(c, 0)) by {
                    if occurs(c, 0) {
                        lemma_occurs_nameable(after, c, 0);
                    }
                }
                assert forall|e: int| #[trigger] p.is_elem(e) implies p.app(e) == cycle_image(c, e, true) by {
                    assert(p.in_bounds(e));
                    if e == 0 {
                        assert(after.app(0) == 0);
                    }
                }
                assert(p.is_elem(0));
                assert(p.app(0) == 0);
                lemma_image_in_range(p, c);
            }
        } else {
            let mut index: usize = 0;
            while index < size
                invariant
                    index <= size,
                    size <= MAX_PERMUTATION_SIZE,
                    permutation@.size == size,
                    !permutation@.reverses,
                    permutation@.shaped(),
                    after.size == size,
                    !after.reverses,
                    building(after, used@, c),
                    forall|e: int|
                        #[trigger] permutation@.in_bounds(e) ==> permutation@.app(e) == (if e
                            <= index {
                            cycle_image(c, e, false)
                        } else {
                            after.app(e)
                        }),
                    forall|e: int| #[trigger] after.is_elem(e) && occurs(c, e) ==> after.app(e) == successor(c, e),
                decreases size - index,
            {
                let ghost before = permutation@;
                assert(after.in_bounds(index as int + 1));
                if !used[index] {
                    assert(!occurs(c, index as int + 1));
                    permutation.mapping[index] = index as i32 + 1;
                } else {
                    assert(occurs(c, index as int + 1));
                    assert(after.is_elem(index as int + 1));
                }
                index = index + 1;
                proof {
                    assert forall|e: int| #[trigger] permutation@.in_bounds(e) implies permutation@.app(e) == (if e
                        <= index {
                        cycle_image(c, e, false)
                    } else {
                        after.app(e)
                    }) by {
                        assert(before.in_bounds(e));
                        if e != index {
                            assert(before.idx(e) != index - 1);
                        } else {
                            assert(after.is_elem(e));
                        }
                    }
                }
            }
            proof {
                let p = permutation@;
                assert forall|e: int| #[trigger] p.is_elem(e) implies p.app(e) == cycle_image(c, e, false) by {
                    assert(p.in_bounds(e));
                }
                lemma_image_in_range(p, c);
                lemma_image_bijection(p, c);
            }
        }
        Ok(permutation)
    }

    /// Reads a permutation of `size` elements, either as an explicit list of images
    /// (`2,3,1`) or in cycle notation (`(1,3,2)`); a reversing permutation may name negated
    /// elements with a trailing `*`.
    pub fn parse(size: usize, perm: &str, reverses: bool) -> (r: Result<Self, String>)
        requires
            size <= MAX_PERMUTATION_SIZE,
        ensures
            text_refused(perm@, size as nat, reverses) ==> r is Err,
            text_accepted(perm@, size as nat, reverses) ==> r is Ok,
            r matches Ok(p) ==> text_images(p@, perm@, size as nat, reverses),
            r matches Ok(p) ==> p@.size == size && p@.reverses == reverses && p@.shaped()
                && p@.values_in_range() && p@.in_range(),
            !reverses ==> (r matches Ok(p) ==> p@.is_bijection()),
            reverses ==> (r matches Ok(p) ==> p@.app(0) == 0),
            size == 0 && trim(perm@).len() == 0 ==> r is Ok,
            !(size == 0 && trim(perm@).len() == 0) && !perm@.contains('(') ==> (r is Ok
                <==> explicit_valid(perm@, size as nat)),
            !(size == 0 && trim(perm@).len() == 0) && !perm@.contains('(') ==> (r matches Err(m)
                ==> m@ == explicit_error(perm@, size as nat)),
            !(size == 0 && trim(perm@).len() == 0) && !perm@.contains('(') ==> (r matches Ok(p)
                ==> forall|e: int|
                1 <= e <= size ==> #[trigger] p@.app(e) == explicit_value(perm@, e - 1) && (
                reverses ==> p@.app(-e) == -explicit_value(perm@, e - 1))),
            !(size == 0 && trim(perm@).len() == 0) && perm@.contains('(') ==> {
                &&& !cycles_valid(perm@, size as nat, reverses) ==> r is Err
                &&& !reverses ==> (r is Ok <==> cycles_valid(perm@, size as nat, false))
                &&& reverses && cycles_valid(perm@, size as nat, true) && no_negated_pairs(
                    cycles_of(perm@, true),
                ) ==> r is Ok
                &&& !reverses ==> (r matches Err(m) ==> cycle_error_from(perm@, size as nat, 0) == Some(m@))
                &&& !reverses ==> (r matches Ok(p) ==> forall|e: int|
                    1 <= e <= size && !occurs(cycles_of(perm@, false), e) ==> #[trigger] p@.app(e) == e)
                &&& r matches Ok(p) ==> forall|e: int|
                    #[trigger] p@.is_elem(e) ==> p@.app(e) == cycle_image(
                        cycles_of(perm@, reverses),
                        e,
                        reverses,
                    )
            },
    {
        let chars = chars_of(perm);
        let trimmed = trim_chars(&chars);
        if size == 0 && trimmed.len() == 0 {
            let p = Self::new(size, reverses);
            proof {
                assert forall|i: int| 0 <= i < p@.mapping.len() implies #[trigger] p@.is_elem(
                    p@.mapping[i] as int,
                ) by {
                    assert(p@.app(p@.elem_at(i)) == p@.elem_at(i));
                }
                if !reverses {
                    assert(p@.mapping.len() == 0);
                }
            }
            return Ok(p);
        }
        let has_paren = contains_char(&chars, '(');
        if !has_paren {
            Self::build_explicit(size, reverses, &chars)
        } else {
            let r = Self::build_cycles(size, reverses, &chars);
            proof {
                if !reverses {
                    if r is Ok {
                        let p = r->Ok_0;
                        assert forall|e: int|
                            1 <= e <= size && !occurs(cycles_of(perm@, false), e) implies #[trigger] p@.app(e) == e by {
                            assert(p@.is_elem(e));
                        }
                    }
                }
            }
            r
        }
    }
}


// ---------------------------------------------------------------------------------------
// Writing a permutation.
// ---------------------------------------------------------------------------------------

/// An integer in decimal, with a leading `-` when negative.
pub open spec fn int_text(x: int) -> Seq<char> {
    if x < 0 {
        seq!['-'] + decimal((-x) as nat)
    } else {
        decimal(x as nat)
    }
}

/// An element of a reversing permutation: a negated element is written with a trailing `*`.
pub open spec fn rev_text(x: int) -> Seq<char> {
    if x >= 0 {
        decimal(x as nat)
    } else {
        decimal((-x) as nat) + seq!['*']
    }
}

/// Texts separated by commas.
pub open spec fn joined(items: Seq<Seq<char>>) -> Seq<char>
    decreases items.len(),
{
    if items.len() == 0 {
        Seq::empty()
    } else if items.len() == 1 {
        items[0]
    } else {
        joined(items.drop_last()) + seq![','] + items.last()
    }
}

pub open spec fn abs(x: int) -> int {
    if x < 0 {
        -x
    } else {
        x
    }
}

impl PermutationView {
    /// How one element is written.
    pub open spec fn elem_text(self, x: int) -> Seq<char> {
        if self.reverses {
            rev_text(x)
        } else {
            int_text(x)
        }
    }

    /// The explicit form: the images of `1..=size` (of the whole table when it does not
    /// reverse), separated by commas.
    pub open spec fn explicit_text(self) -> Seq<char> {
        if self.size == 0 {
            Seq::empty()
        } else if self.reverses {
            joined(Seq::new(self.size, |i: int| rev_text(self.mapping[self.size + 1 + i] as int)))
        } else {
            joined(Seq::new(self.mapping.len(), |i: int| int_text(self.mapping[i] as int)))
        }
    }

    /// `e` is the element of its cycle whose absolute value is least, and is not sent to 0.
    pub open spec fn is_leader(self, e: int) -> bool {
        &&& self.app(e) != 0
        &&& forall|j: nat| j < self.cycle_len(e) ==> abs(#[trigger] self.iter(e, j)) >= e
    }

    /// The cycle through `e`, written from `e`.
    pub open spec fn cycle_text(self, e: int) -> Seq<char> {
        seq!['('] + joined(Seq::new(self.cycle_len(e), |j: int| self.elem_text(self.iter(e, j as nat))))
            + seq![')']
    }

    /// The cycle form over the positive elements `1..=n`: each cycle once, written from
    /// its least element, in the order of those elements.
    pub open spec fn cycles_text_upto(self, n: int) -> Seq<char>
        decreases n,
    {
        if n <= 0 {
            Seq::empty()
        } else if self.is_leader(n) {
            self.cycles_text_upto(n - 1) + self.cycle_text(n)
        } else {
            self.cycles_text_upto(n - 1)
        }
    }

    pub open spec fn cycles_text(self) -> Seq<char> {
        self.cycles_text_upto(self.size as int)
    }
}

pub fn push_int(out: &mut Vec<char>, x: i32)
    ensures
        final(out)@ == old(out)@ + int_text(x as int),
{
    if x < 0 {
        out.push('-');
        let m: u64 = (0 - (x as i64)) as u64;
        push_decimal(out, m);
        assert(final(out)@ =~= old(out)@ + int_text(x as int));
    } else {
        push_decimal(out, x as u64);
    }
}

/// Writes an element of a reversing permutation.
pub fn convert_reverse(out: &mut Vec<char>, num: i32)
    ensures
        final(out)@ == old(out)@ + rev_text(num as int),
{
    if num >= 0 {
        push_decimal(out, num as u64);
    } else {
        let m: u64 = (0 - (num as i64)) as u64;
        push_decimal(out, m);
        out.push('*');
        assert(final(out)@ =~= old(out)@ + rev_text(num as int));
    }
}

proof fn lemma_joined_push(items: Seq<Seq<char>>, x: Seq<char>)
    ensures
        joined(items.push(x)) == (if items.len() == 0 {
            x
        } else {
            joined(items) + seq![','] + x
        }),
{
    assert(items.push(x).drop_last() =~= items);
}

impl Permutation {
    #[verifier::rlimit(30)]
    fn to_explicit_string(&self) -> (r: Vec<char>)
        requires
            self@.sane(),
            self@.reverses ==> self@.mapping.len() >= 2 * self@.size + 1,
        ensures
            r@ == self@.explicit_text(),
    {
        let ghost v = self@;
        let mut output: Vec<char> = Vec::new();
        if self.size == 0 {
            return output;
        }
        if self.reverses {
            let ghost items = Seq::new(v.size, |i: int| rev_text(v.mapping[v.size + 1 + i] as int));
            convert_reverse(&mut output, self.mapping[self.size + 1]);
            proof {
                assert(items.take(1) =~= seq![items[0]]);
            }
            let mut index: usize = 1;
            while index < self.size
                invariant
                    v == self@,
                    v.sane(),
                    v.reverses,
                    v.mapping.len() >= 2 * v.size + 1,
                    1 <= index <= v.size,
                    items == Seq::new(v.size, |i: int| rev_text(v.mapping[v.size + 1 + i] as int)),
                    output@ == joined(items.take(index as int)),
                decreases self.size - index,
            {
                output.push(',');
                convert_reverse(&mut output, self.mapping[self.size + 1 + index]);
                proof {
                    lemma_joined_push(items.take(index as int), items[index as int]);
                    assert(items.take(index as int).push(items[index as int]) =~= items.take(
                        index as int + 1,
                    ));
                }
                index = index + 1;
            }
            assert(items.take(v.size as int) =~= items);
        } else {
            let ghost items = Seq::new(v.mapping.len(), |i: int| int_text(v.mapping[i] as int));
            let mut index: usize = 0;
            while index < self.mapping.len()
                invariant
                    v == self@,
                    !v.reverses,
                    index <= v.mapping.len(),
                    items == Seq::new(v.mapping.len(), |i: int| int_text(v.mapping[i] as int)),
                    output@ == joined(items.take(index as int)),
                decreases self.mapping.len() - index,
            {
                if index > 0 {
                    output.push(',');
                }
                push_int(&mut output, self.mapping[index]);
                proof {
                    lemma_joined_push(items.take(index as int), items[index as int]);
                    assert(items.take(index as int).push(items[index as int]) =~= items.take(
                        index as int + 1,
                    ));
                    if index == 0 {
                        assert(items.take(0).len() == 0);
                    }
                }
                index = index + 1;
            }
            assert(items.take(v.mapping.len() as int) =~= items);
        }
        output
    }
}

/// The elements of a permutation as a set of integers.
pub open spec fn elem_set(p: PermutationView) -> Set<int> {
    if p.reverses {
        set_int_range(-(p.size as int), (p.size + 1) as int)
    } else {
        set_int_range(1, (p.size + 1) as int)
    }
}

proof fn lemma_elem_set(p: PermutationView)
    ensures
        elem_set(p).finite(),
        elem_set(p).len() == p.table_len(),
        forall|e: int| #[trigger] elem_set(p).contains(e) <==> p.is_elem(e),
{
    if p.reverses {
        lemma_int_range(-(p.size as int), (p.size + 1) as int);
    } else {
        lemma_int_range(1, (p.size + 1) as int);
    }
}

proof fn lemma_iter_back(p: PermutationView, e: int, i: nat, j: nat)
    requires
        p.is_bijection(),
        p.is_elem(e),
        i <= j,
        p.iter(e, i) == p.iter(e, j),
    ensures
        p.iter(e, (j - i) as nat) == e,
    decreases i,
{
    if i > 0 {
        lemma_iter_is_elem(p, e, (i - 1) as nat);
        lemma_iter_is_elem(p, e, (j - 1) as nat);
        let a = p.iter(e, (i - 1) as nat);
        let b = p.iter(e, (j - 1) as nat);
        if a != b {
            assert(p.app(a) != p.app(b));
        }
        lemma_iter_back(p, e, (i - 1) as nat, (j - 1) as nat);
        assert((j - 1 - (i - 1)) as nat == (j - i) as nat);
    }
}

/// Every element of a bijection comes back to itself: its orbit is a cycle no longer than
/// the number of elements.
pub proof fn lemma_bijection_closes(p: PermutationView, e: int)
    requires
        p.is_bijection(),
        p.is_elem(e),
    ensures
        p.closes(e),
        p.is_cycle_len(e, p.cycle_len(e)),
        p.cycle_len(e) <= p.table_len(),
{
    let n = p.table_len();
    let s = Seq::new(n + 1, |k: int| p.iter(e, k as nat));
    lemma_elem_set(p);
    assert forall|k: int| 0 <= k < s.len() implies elem_set(p).contains(#[trigger] s[k]) by {
        lemma_iter_is_elem(p, e, k as nat);
    }
    if s.no_duplicates() {
        s.unique_seq_to_set();
        assert(s.to_set().subset_of(elem_set(p)));
        vstd::seq_lib::seq_to_set_is_finite(s);
        lemma_len_subset(s.to_set(), elem_set(p));
        assert(false);
    }
    let (i, j) = choose|i: int, j: int| 0 <= i < s.len() && 0 <= j < s.len() && i != j && s[i] == s[j];
    let (lo, hi) = if i < j { (i, j) } else { (j, i) };
    assert(p.iter(e, lo as nat) == p.iter(e, hi as nat));
    lemma_iter_back(p, e, lo as nat, hi as nat);
    let k = (hi - lo) as nat;
    assert(1 <= k <= n);
    assert(p.iter(e, k) == e);
    lemma_least_cycle(p, e, k);
}

proof fn lemma_iter_add(p: PermutationView, e: int, a: nat, b: nat)
    ensures
        p.iter(e, a + b) == p.iter(p.iter(e, a), b),
    decreases b,
{
    if b > 0 {
        lemma_iter_add(p, e, a, (b - 1) as nat);
        assert(p.iter(e, a + b) == p.app(p.iter(e, (a + b - 1) as nat)));
    }
}

/// An element that comes back to itself does so within as many steps as there are
/// elements.
pub proof fn lemma_closing_within_table(p: PermutationView, e: int)
    requires
        p.in_range(),
        p.is_elem(e),
        p.closes(e),
    ensures
        p.cycle_len(e) <= p.table_len(),
        p.is_cycle_len(e, p.cycle_len(e)),
{
    let k0 = choose|k: nat| 1 <= k <= usize::MAX && #[trigger] p.iter(e, k) == e;
    lemma_least_cycle(p, e, k0);
    let m = p.cycle_len(e);
    let s = Seq::new(m, |k: int| p.iter(e, k as nat));
    lemma_elem_set(p);
    assert forall|k: int| 0 <= k < s.len() implies elem_set(p).contains(#[trigger] s[k]) by {
        lemma_iter_is_elem(p, e, k as nat);
    }
    assert(s.no_duplicates()) by {
        assert forall|i: int, j: int| 0 <= i < s.len() && 0 <= j < s.len() && i != j implies s[i] != s[j] by {
            if s[i] == s[j] {
                let (lo, hi) = if i < j { (i, j) } else { (j, i) };
                let d = (m - hi) as nat;
                lemma_iter_add(p, e, lo as nat, d);
                lemma_iter_add(p, e, hi as nat, d);
                assert(p.iter(e, (hi + d) as nat) == e);
                assert(p.iter(e, (lo + d) as nat) == e);
                assert(1 <= lo + d < m);
            }
        }
    }
    s.unique_seq_to_set();
    assert(s.to_set().subset_of(elem_set(p)));
    vstd::seq_lib::seq_to_set_is_finite(s);
    lemma_len_subset(s.to_set(), elem_set(p));
}

proof fn lemma_least_cycle(p: PermutationView, e: int, k: nat)
    requires
        k >= 1,
        p.iter(e, k) == e,
        k <= usize::MAX,
    ensures
        p.closes(e),
        p.is_cycle_len(e, p.cycle_len(e)),
        p.cycle_len(e) <= k,
    decreases k,
{
    if exists|j: nat| 1 <= j < k && #[trigger] p.iter(e, j) == e {
        let j = choose|j: nat| 1 <= j < k && #[trigger] p.iter(e, j) == e;
        lemma_least_cycle(p, e, j);
    } else {
        assert(p.is_cycle_len(e, k));
        lemma_cycle_len_unique(p, e, k);
    }
}

impl Permutation {
    #[verifier::rlimit(40)]
    fn to_cycle_string(&self) -> (r: Vec<char>)
        requires
            self@.shaped(),
            self@.in_range(),
            self@.positives_close(),
        ensures
            r@ == self@.cycles_text(),
    {
        let ghost v = self@;
        let mut output: Vec<char> = Vec::new();
        let mut elem: usize = 1;
        while elem <= self.size
            invariant
                v == self@,
                v.shaped(),
                v.in_range(),
                v.positives_close(),
                1 <= elem <= v.size + 1,
                output@ == v.cycles_text_upto(elem - 1),
            decreases self.size + 1 - elem,
        {
            let e = elem as i32;
            assert(v.is_elem(e as int));
            if self.map(e) != 0 {
                let cycle = self.cycle_of(e);
                let mut lead = true;
                let mut j: usize = 0;
                while j < cycle.len()
                    invariant
                        v == self@,
                        v.shaped(),
                        v.in_range(),
                        v.is_elem(e as int),
                        1 <= e <= v.size,
                        cycle.len() == v.cycle_len(e as int),
                        forall|i: int| 0 <= i < cycle.len() ==> cycle@[i] == v.iter(e as int, i as nat),
                        j <= cycle.len(),
                        lead == forall|i: nat| i < j ==> abs(#[trigger] v.iter(e as int, i)) >= e,
                    decreases cycle.len() - j,
                {
                    proof {
                        lemma_iter_is_elem(v, e as int, j as nat);
                    }
                    let x = cycle[j];
                    let ax: i32 = if x < 0 { -x } else { x };
                    if ax < e {
                        lead = false;
                    }
                    j = j + 1;
                    proof {
                        assert(x == v.iter(e as int, (j - 1) as nat));
                    }
                }
                if lead {
                    let ghost items = Seq::new(v.cycle_len(e as int), |i: int| v.elem_text(v.iter(e as int, i as nat)));
                    output.push('(');
                    let ghost start = output@;
                    let mut i: usize = 0;
                    while i < cycle.len()
                        invariant
                            v == self@,
                            cycle.len() == v.cycle_len(e as int),
                            forall|q: int| 0 <= q < cycle.len() ==> cycle@[q] == v.iter(e as int, q as nat),
                            items == Seq::new(v.cycle_len(e as int), |q: int| v.elem_text(v.iter(e as int, q as nat))),
                            i <= cycle.len(),
                            output@ == start + joined(items.take(i as int)),
                        decreases cycle.len() - i,
                    {
                        if i > 0 {
                            output.push(',');
                        }
                        if self.reverses {
                            convert_reverse(&mut output, cycle[i]);
                        } else {
                            push_int(&mut output, cycle[i]);
                        }
                        proof {
                            lemma_joined_push(items.take(i as int), items[i as int]);
                            assert(items.take(i as int).push(items[i as int]) =~= items.take(i as int + 1));
                            if i == 0 {
                                assert(items.take(0).len() == 0);
                            }
                            assert(output@ =~= start + joined(items.take(i as int + 1)));
                        }
                        i = i + 1;
                    }
                    output.push(')');
                    proof {
                        assert(items.take(cycle.len() as int) =~= items);
                        assert(v.is_leader(e as int));
                        assert(output@ =~= v.cycles_text_upto(elem - 1) + v.cycle_text(e as int));
                    }
                } else {
                    assert(!v.is_leader(e as int));
                }
            } else {
                assert(!v.is_leader(e as int));
            }
            elem = elem + 1;
        }
        output
    }

    /// The permutation in cycle notation (`cycle_notation`) or as its explicit table.
    pub fn to_string_with_cycles(&self, cycle_notation: bool) -> (r: String)
        requires
            self@.shaped(),
            cycle_notation ==> self@.in_range() && self@.positives_close(),
        ensures
            cycle_notation ==> r@ == self@.cycles_text(),
            !cycle_notation ==> r@ == self@.explicit_text(),
    {
        let chars = if cycle_notation {
            self.to_cycle_string()
        } else {
            self.to_explicit_string()
        };
        string_from_chars(&chars)
    }

    /// The permutation in cycle notation.
    pub fn to_string(&self) -> (r: String)
        requires
            self@.shaped(),
            self@.in_range(),
            self@.positives_close(),
        ensures
            r@ == self@.cycles_text(),
    {
        let chars = self.to_cycle_string();
        string_from_chars(&chars)
    }
}
} // verus!

verus! {

proof fn lemma_find_last_unique(s: Seq<i32>, x: int, i: int, pos: int)
    requires
        0 <= pos < i <= s.len(),
        s[pos] == x,
        forall|j: int| 0 <= j < s.len() && j != pos ==> s[j] != x,
    ensures
        PermutationView::find_last_before(s, x, i) == pos,
    decreases i,
{
    if s[i - 1] != x {
        lemma_find_last_unique(s, x, i - 1, pos);
    }
}

proof fn lemma_find_from_unique(s: Seq<i32>, x: int, i: int, pos: int)
    requires
        0 <= i <= pos < s.len(),
        s[pos] == x,
        forall|j: int| 0 <= j < s.len() && j != pos ==> s[j] != x,
    ensures
        PermutationView::find_from(s, x, i) == pos,
    decreases s.len() - i,
{
    if s[i] != x {
        lemma_find_from_unique(s, x, i + 1, pos);
    }
}

/// In a bijection, the image of `e` is found at `e`'s place in the table and nowhere else.
proof fn lemma_image_only_at(p: PermutationView, e: int)
    requires
        p.is_bijection(),
        p.is_elem(e),
    ensures
        0 <= p.idx(e) < p.mapping.len(),
        p.mapping[p.idx(e)] == p.app(e),
        forall|j: int|
            0 <= j < p.mapping.len() && j != p.idx(e) ==> p.mapping[j] != p.app(e),
{
    assert forall|j: int| 0 <= j < p.mapping.len() && j != p.idx(e) implies p.mapping[j]
        != p.app(e) by {
        let a = p.elem_at(j);
        assert(p.idx(a) == j);
        assert(p.is_elem(a));
        assert(p.app(a) != p.app(e));
    }
}

/// Undoing a bijection: what `inverse` stores for the image of `e` is `e`, and so is what
/// `map_inverse` gives for it.
pub proof fn lemma_inverse_undoes(p: PermutationView, e: int)
    requires
        p.is_bijection(),
        p.is_elem(e),
    ensures
        p.inverse_entry(p.app(e)) == e,
        p.inv_app(p.app(e)) == e,
{
    lemma_image_only_at(p, e);
    lemma_find_last_unique(p.mapping, p.app(e), p.mapping.len() as int, p.idx(e));
    lemma_find_from_unique(p.mapping, p.app(e), 0, p.idx(e));
}

/// A bijection reaches every element.
pub proof fn lemma_bijection_onto(p: PermutationView, y: int)
    requires
        p.is_bijection(),
        p.is_elem(y),
    ensures
        exists|x: int| p.is_elem(x) && #[trigger] p.app(x) == y,
{
    lemma_elem_set(p);
    let dom = elem_set(p);
    let f = |x: int| p.app(x);
    let img = dom.map(f);
    assert(injective_on(f, dom)) by {
        assert forall|a: int, b: int| dom.contains(a) && dom.contains(b) && #[trigger] f(a) == #[trigger] f(b)
            implies a == b by {
            if a != b {
                assert(p.app(a) != p.app(b));
            }
        }
    }
    vstd::set_lib::lemma_map_size(dom, img, f);
    assert(img.subset_of(dom)) by {
        assert forall|z: int| img.contains(z) implies dom.contains(z) by {
            let x = choose|x: int| dom.contains(x) && f(x) == z;
            assert(p.is_elem(x));
        }
    }
    lemma_subset_equality(img, dom);
    assert(img.contains(y));
    let x = choose|x: int| dom.contains(x) && f(x) == y;
    assert(p.is_elem(x) && p.app(x) == y);
}

/// The table `q` that `inverse` builds from a bijection `p` undoes it from both sides, is a
/// bijection itself, and inverting it gives `p` back.
pub proof fn lemma_inverse_twice(p: PermutationView, q: PermutationView)
    requires
        p.is_bijection(),
        q.size == p.size,
        q.reverses == p.reverses,
        q.mapping.len() == p.table_len(),
        forall|e: int| #[trigger] p.is_elem(e) ==> q.app(e) == p.inverse_entry(e),
    ensures
        forall|e: int| #[trigger] p.is_elem(e) ==> q.app(p.app(e)) == e,
        forall|e: int| #[trigger] p.is_elem(e) ==> p.app(q.app(e)) == e,
        q.is_bijection(),
        forall|e: int| #[trigger] p.is_elem(e) ==> q.inverse_entry(e) == p.app(e),
{
    assert forall|e: int| #[trigger] p.is_elem(e) implies q.app(p.app(e)) == e by {
        lemma_inverse_undoes(p, e);
    }
    assert forall|e: int| #[trigger] p.is_elem(e) implies p.is_elem(q.app(e)) && p.app(q.app(e)) == e by {
        lemma_bijection_onto(p, e);
        let x = choose|x: int| p.is_elem(x) && #[trigger] p.app(x) == e;
        lemma_inverse_undoes(p, x);
    }
    assert forall|a: int, b: int|
        #![trigger q.app(a), q.app(b)]
        q.is_elem(a) && q.is_elem(b) && a != b implies q.app(a) != q.app(b) by {
        assert(p.is_elem(a) && p.is_elem(b));
        assert(p.app(q.app(a)) == a);
        assert(p.app(q.app(b)) == b);
    }
    if p.reverses {
        assert forall|e: int| #[trigger] q.is_elem(e) implies q.app(-e) == -q.app(e) by {
            assert(p.is_elem(e) && p.is_elem(-e));
            let x = q.app(e);
            assert(p.is_elem(x));
            assert(p.app(x) == e);
            assert(p.app(-x) == -p.app(x));
            assert(p.is_elem(-x));
            lemma_inverse_undoes(p, -x);
        }
    }
    assert(q.in_range()) by {
        assert forall|e: int| q.is_elem(e) implies q.is_elem(#[trigger] q.app(e)) by {
            assert(p.is_elem(e));
        }
    }
    assert(q.is_bijection());
    assert forall|e: int| #[trigger] p.is_elem(e) implies q.inverse_entry(e) == p.app(e) by {
        let x = p.app(e);
        assert(p.is_elem(x));
        assert(q.is_elem(x));
        lemma_inverse_undoes(q, x);
        assert(q.app(x) == e);
    }
}

proof fn lemma_inv_iter_shift(p: PermutationView, y: int, k: nat)
    ensures
        p.inv_iter(y, k + 1) == p.inv_iter(p.inv_app(y), k),
    decreases k,
{
    if k > 0 {
        lemma_inv_iter_shift(p, y, (k - 1) as nat);
        assert(p.inv_iter(y, k + 1) == p.inv_app(p.inv_iter(y, k)));
        assert(p.inv_iter(p.inv_app(y), k) == p.inv_app(p.inv_iter(p.inv_app(y), (k - 1) as nat)));
    } else {
        assert(p.inv_iter(y, 1) == p.inv_app(p.inv_iter(y, 0)));
    }
}

/// Moving an element `k` steps forward and then `k` steps back (as `map_power` does with
/// `k` and `-k`) gives back the element, in a bijection.
pub proof fn lemma_power_round_trip(p: PermutationView, e: int, k: nat)
    requires
        p.is_bijection(),
        p.is_elem(e),
    ensures
        p.inv_iter(p.iter(e, k), k) == e,
    decreases k,
{
    if k > 0 {
        let z = p.iter(e, (k - 1) as nat);
        lemma_iter_is_elem(p, e, (k - 1) as nat);
        lemma_inverse_undoes(p, z);
        lemma_inv_iter_shift(p, p.app(z), (k - 1) as nat);
        lemma_power_round_trip(p, e, (k - 1) as nat);
    }
}

/// In a bijection every element that is not sent to 0 comes back to itself, as `order`,
/// `max_order` and the cycle notation need.
pub proof fn lemma_bijection_positives_close(p: PermutationView)
    requires
        p.is_bijection(),
    ensures
        p.positives_close(),
{
    assert forall|n: int| 1 <= n <= p.size && #[trigger] p.app(n) != 0 implies p.closes(n) by {
        lemma_bijection_closes(p, n);
    }
}

proof fn lemma_gcd_divides(x: nat, y: nat)
    requires
        y > 0,
    ensures
        gcd(x, y) > 0,
        x % gcd(x, y) == 0,
        y % gcd(x, y) == 0,
    decreases x,
{
    if x > 0 {
        let r = (y % x) as nat;
        lemma_gcd_divides(r, x);
        let g = gcd(x, y);
        assert(g == gcd(r, x));
        vstd::arithmetic::div_mod::lemma_fundamental_div_mod(x as int, g as int);
        vstd::arithmetic::div_mod::lemma_fundamental_div_mod(r as int, g as int);
        vstd::arithmetic::div_mod::lemma_fundamental_div_mod(y as int, x as int);
        let a = x / g;
        let b = r / g;
        let q = y / x;
        assert(y == (q * a + b) * g) by (nonlinear_arith)
            requires
                x == g * a,
                r == g * b,
                y == x * q + r,
        ;
        vstd::arithmetic::div_mod::lemma_mod_multiples_basic((q * a + b) as int, g as int);
    }
}

/// The least common multiple of two positive numbers is a multiple of both.
pub proof fn lemma_lcm_common_multiple(x: nat, y: nat)
    requires
        x > 0,
        y > 0,
    ensures
        lcm_spec(x, y) > 0,
        lcm_spec(x, y) % x == 0,
        lcm_spec(x, y) % y == 0,
{
    lemma_gcd_divides(x, y);
    let g = gcd(x, y);
    vstd::arithmetic::div_mod::lemma_fundamental_div_mod(x as int, g as int);
    vstd::arithmetic::div_mod::lemma_fundamental_div_mod(y as int, g as int);
    let s = x / g;
    let t = y / g;
    assert(x * y == g * (x * t)) by (nonlinear_arith)
        requires
            y == g * t,
    ;
    vstd::arithmetic::div_mod::lemma_div_multiples_vanish((x * t) as int, g as int);
    assert(lcm_spec(x, y) == x * t);
    assert(t > 0) by (nonlinear_arith)
        requires
            y == g * t,
            y > 0,
            g > 0,
    ;
    assert(x * t > 0) by (nonlinear_arith)
        requires
            x > 0,
            t > 0,
    ;
    vstd::arithmetic::div_mod::lemma_mod_multiples_basic(t as int, x as int);
    assert(x * t == t * x) by (nonlinear_arith);
    assert(x * t == s * y) by (nonlinear_arith)
        requires
            x == g * s,
            y == g * t,
    ;
    vstd::arithmetic::div_mod::lemma_mod_multiples_basic(s as int, y as int);
}

} // verus!

verus! {

/// The text stands for no elements at all: a blank text for size 0.
pub open spec fn text_blank(t: Seq<char>, size: nat) -> bool {
    size == 0 && trim(t).len() == 0
}

/// Texts that `parse` refuses: an explicit list that is not a permutation of `1..=size`, or
/// cycles that cannot be read or do not name distinct elements.
pub open spec fn text_refused(t: Seq<char>, size: nat, reverses: bool) -> bool {
    &&& !text_blank(t, size)
    &&& if t.contains('(') {
        !cycles_valid(t, size, reverses)
    } else {
        !explicit_valid(t, size)
    }
}

/// Texts that `parse` is sure to accept: a blank text for size 0, a valid explicit list,
/// valid cycles of a permutation that does not reverse, or valid cycles of one that does
/// in which no element is named together with its negation.
pub open spec fn text_accepted(t: Seq<char>, size: nat, reverses: bool) -> bool {
    ||| text_blank(t, size)
    ||| !t.contains('(') && explicit_valid(t, size)
    ||| t.contains('(') && cycles_valid(t, size, reverses) && (reverses ==> no_negated_pairs(
        cycles_of(t, reverses),
    ))
}

/// The images that the text gives the elements.
pub open spec fn text_images(p: PermutationView, t: Seq<char>, size: nat, reverses: bool) -> bool {
    if text_blank(t, size) {
        forall|e: int| #[trigger] p.is_elem(e) ==> p.app(e) == e
    } else if !t.contains('(') {
        forall|e: int|
            1 <= e <= size ==> #[trigger] p.app(e) == explicit_value(t, e - 1) && (reverses
                ==> p.app(-e) == -explicit_value(t, e - 1))
    } else {
        forall|e: int|
            #[trigger] p.is_elem(e) ==> p.app(e) == cycle_image(cycles_of(t, reverses), e, reverses)
    }
}


// ---------------------------------------------------------------------------------------
// Reading back the explicit form.
// ---------------------------------------------------------------------------------------

proof fn lemma_decimal_reads(n: nat)
    ensures
        decimal(n).len() >= 1,
        all_digits(decimal(n)),
        digits_value(decimal(n)) == n,
    decreases n,
{
    let d = decimal(n);
    if n < 10 {
        assert(d.drop_last() =~= Seq::<char>::empty());
        assert(digit_value(digit_char(n as int)) == n);
        assert(d.last() == digit_char(n as int));
        assert(digits_value(d) == digits_value(d.drop_last()) * 10 + (digit_value(d.last()) as nat));
        assert(digits_value(Seq::<char>::empty()) == 0);
    } else {
        lemma_decimal_reads(n / 10);
        assert(d.drop_last() =~= decimal(n / 10));
        assert(d.last() == digit_char((n % 10) as int));
        assert(digit_value(digit_char((n % 10) as int)) == n % 10);
        assert(digits_value(d) == digits_value(d.drop_last()) * 10 + (digit_value(d.last()) as nat));
        assert((n / 10) * 10 + n % 10 == n) by (nonlinear_arith);
        assert forall|i: int| 0 <= i < d.len() implies crate::text::is_digit(#[trigger] d[i]) by {
            if i < d.len() - 1 {
                assert(d[i] == decimal(n / 10)[i]);
            }
        }
    }
}

proof fn lemma_positive_text_parses(x: int)
    requires
        1 <= x <= i32::MAX,
    ensures
        trim(int_text(x)) == int_text(x),
        parsed_i32(trim(int_text(x))) == Some(x as i32),
        !int_text(x).contains(','),
{
    let d = decimal(x as nat);
    lemma_decimal_reads(x as nat);
    assert(int_text(x) == d);
    assert(!is_ws(d[0]) && d[0] != '+' && d[0] != '-') by {
        assert(crate::text::is_digit(d[0]));
    }
    assert(!is_ws(d.last())) by {
        assert(crate::text::is_digit(d[d.len() - 1]));
    }
    assert(trim_start(d) == d);
    assert(trim_end(d) == d);
    assert(!d.contains(',')) by {
        if d.contains(',') {
            let i = choose|i: int| 0 <= i < d.len() && d[i] == ',';
            assert(crate::text::is_digit(d[i]));
        }
    }
}

proof fn lemma_split_append_plain(a: Seq<char>, y: Seq<char>, d: char)
    requires
        !y.contains(d),
    ensures
        split_on(a + y, d) == split_on(a, d).update(
            split_on(a, d).len() - 1,
            split_on(a, d).last() + y,
        ),
    decreases y.len(),
{
    crate::text::lemma_split_on_len(a, d);
    if y.len() == 0 {
        assert(a + y =~= a);
        assert(split_on(a, d).last() + y =~= split_on(a, d).last());
        assert(split_on(a, d).update(split_on(a, d).len() - 1, split_on(a, d).last()) =~= split_on(a, d));
    } else {
        let y0 = y.drop_last();
        assert(!y0.contains(d)) by {
            if y0.contains(d) {
                let i = choose|i: int| 0 <= i < y0.len() && y0[i] == d;
                assert(y[i] == d);
            }
        }
        assert(y.last() != d) by {
            assert(y[y.len() - 1] == y.last());
        }
        lemma_split_append_plain(a, y0, d);
        let t = a + y;
        assert(t.drop_last() =~= a + y0);
        assert(t.last() == y.last());
        crate::text::lemma_split_on_len(a + y0, d);
        assert(split_on(a, d).last() + y0 + seq![y.last()] =~= split_on(a, d).last() + y);
        let r = split_on(t.drop_last(), d);
        assert(split_on(t, d) == r.update(r.len() - 1, r.last().push(t.last())));
        assert(r.last() == split_on(a, d).last() + y0);
        assert((split_on(a, d).last() + y0).push(t.last()) =~= split_on(a, d).last() + y);
        assert(split_on(t, d) =~= split_on(a, d).update(split_on(a, d).len() - 1, split_on(a, d).last() + y));
    }
}

proof fn lemma_split_joined(items: Seq<Seq<char>>)
    requires
        items.len() >= 1,
        forall|i: int| 0 <= i < items.len() ==> !(#[trigger] items[i]).contains(','),
    ensures
        split_on(joined(items), ',') == items,
    decreases items.len(),
{
    if items.len() == 1 {
        lemma_split_append_plain(Seq::empty(), items[0], ',');
        assert(Seq::<char>::empty() + items[0] =~= items[0]);
        assert(split_on(Seq::<char>::empty(), ',') =~= seq![Seq::<char>::empty()]);
        assert(Seq::<char>::empty() + items[0] =~= items[0]);
        assert(split_on(items[0], ',') =~= items);
    } else {
        let front = items.drop_last();
        assert forall|i: int| 0 <= i < front.len() implies !(#[trigger] front[i]).contains(',') by {
            assert(front[i] == items[i]);
        }
        lemma_split_joined(front);
        let a = joined(front) + seq![','];
        assert(a.drop_last() =~= joined(front));
        assert(a.last() == ',');
        assert(split_on(a, ',') == split_on(joined(front), ',').push(Seq::empty()));
        lemma_split_append_plain(a, items.last(), ',');
        assert(!items.last().contains(',')) by {
            assert(items[items.len() - 1] == items.last());
        }
        assert(joined(items) == a + items.last());
        assert(Seq::<char>::empty() + items.last() =~= items.last());
        assert(split_on(joined(items), ',') =~= items);
    }
}

proof fn lemma_joined_chars(items: Seq<Seq<char>>, c: char)
    requires
        c != ',',
        forall|i: int| 0 <= i < items.len() ==> !(#[trigger] items[i]).contains(c),
    ensures
        !joined(items).contains(c),
    decreases items.len(),
{
    if items.len() >= 2 {
        let front = items.drop_last();
        assert forall|i: int| 0 <= i < front.len() implies !(#[trigger] front[i]).contains(c) by {
            assert(front[i] == items[i]);
        }
        lemma_joined_chars(front, c);
        let j = joined(items);
        let a = joined(front);
        let l = items.last();
        assert(!l.contains(c)) by {
            assert(items[items.len() - 1] == l);
        }
        if j.contains(c) {
            let k = choose|k: int| 0 <= k < j.len() && j[k] == c;
            assert(j == a + seq![','] + l);
            if k < a.len() {
                assert(a[k] == c);
            } else if k == a.len() {
                assert(j[k] == ',');
            } else {
                assert(l[k - a.len() - 1] == c);
            }
        }
    } else if items.len() == 1 {
        assert(joined(items) == items[0]);
    }
}

/// The explicit form of a permutation that does not reverse reads back as a valid explicit
/// list naming the same images, so parsing it gives the same permutation.
pub proof fn lemma_explicit_text_reads_back(p: PermutationView)
    requires
        p.is_bijection(),
        !p.reverses,
        p.size >= 1,
    ensures
        !p.explicit_text().contains('('),
        explicit_valid(p.explicit_text(), p.size),
        forall|e: int| 1 <= e <= p.size ==> #[trigger] explicit_value(p.explicit_text(), e - 1) == p.app(e),
{
    let items = Seq::new(p.mapping.len(), |i: int| int_text(p.mapping[i] as int));
    assert forall|i: int| 0 <= i < items.len() implies !(#[trigger] items[i]).contains(',')
        && parsed_i32(trim(items[i])) == Some(p.mapping[i]) by {
        assert(p.is_elem(i + 1));
        assert(p.app(i + 1) == p.mapping[i]);
        assert(p.is_elem(p.app(i + 1)));
        lemma_positive_text_parses(p.mapping[i] as int);
    }
    lemma_split_joined(items);
    let t = p.explicit_text();
    assert forall|i: int| 0 <= i < items.len() implies !(#[trigger] items[i]).contains('(') by {
        assert(p.is_elem(i + 1));
        assert(p.is_elem(p.app(i + 1)));
        lemma_decimal_reads(p.mapping[i] as nat);
        let d = items[i];
        if d.contains('(') {
            let k = choose|k: int| 0 <= k < d.len() && d[k] == '(';
            assert(crate::text::is_digit(d[k]));
        }
    }
    lemma_joined_chars(items, '(');
    assert(t == joined(items));
    assert(explicit_tokens(t) == items);
    assert forall|i: int| 0 <= i < items.len() implies explicit_value(t, i) == p.mapping[i] by {}
    assert forall|i: int, k: int| 0 <= i < k < explicit_tokens(t).len() implies explicit_value(t, i)
        != explicit_value(t, k) by {
        assert(p.app(i + 1) != p.app(k + 1));
    }
    assert forall|e: int| 1 <= e <= p.size implies #[trigger] explicit_value(p.explicit_text(), e - 1) == p.app(e) by {
        assert(explicit_value(t, e - 1) == p.mapping[e - 1]);
    }
    assert forall|i: int| 0 <= i < explicit_tokens(t).len() implies 1 <= #[trigger] explicit_value(t, i) <= p.size by {
        assert(p.is_elem(i + 1));
        assert(p.is_elem(p.app(i + 1)));
    }
}


// ---------------------------------------------------------------------------------------
// Reading back the cycle form.
// ---------------------------------------------------------------------------------------

/// The elements of the cycle through `e`, from `e`.
pub open spec fn orbit_seq(p: PermutationView, e: int) -> Seq<int> {
    Seq::new(p.cycle_len(e), |j: int| p.iter(e, j as nat))
}

/// The texts of the elements of the cycle through `e`, from `e`.
pub open spec fn orbit_items(p: PermutationView, e: int) -> Seq<Seq<char>> {
    Seq::new(p.cycle_len(e), |j: int| p.elem_text(p.iter(e, j as nat)))
}

/// The cycle through `e` as it is written, up to its closing `)`.
pub open spec fn cycle_piece(p: PermutationView, e: int) -> Seq<char> {
    seq!['('] + joined(orbit_items(p, e))
}

/// The elements of `1..=n` that lead their cycle, in increasing order.
pub open spec fn leaders_upto(p: PermutationView, n: int) -> Seq<int>
    decreases n,
{
    if n <= 0 {
        Seq::empty()
    } else if p.is_leader(n) {
        leaders_upto(p, n - 1).push(n)
    } else {
        leaders_upto(p, n - 1)
    }
}

/// The written cycles of the leaders among `1..=n`, each up to its closing `)`.
pub open spec fn pieces_upto(p: PermutationView, n: int) -> Seq<Seq<char>> {
    Seq::new(leaders_upto(p, n).len(), |i: int| cycle_piece(p, leaders_upto(p, n)[i]))
}

proof fn lemma_iter_mod(p: PermutationView, e: int, k: nat)
    requires
        p.is_cycle_len(e, p.cycle_len(e)),
    ensures
        p.iter(e, k) == p.iter(e, k % p.cycle_len(e)),
    decreases k,
{
    let m = p.cycle_len(e);
    if k >= m {
        lemma_iter_add(p, e, m, (k - m) as nat);
        lemma_iter_mod(p, e, (k - m) as nat);
        vstd::arithmetic::div_mod::lemma_mod_sub_multiples_vanish(k as int, m as int);
        assert(-m + k == (k - m) as nat);
    } else {
        vstd::arithmetic::div_mod::lemma_small_mod(k, m);
    }
}

proof fn lemma_leaders(p: PermutationView, n: int)
    requires
        p.is_bijection(),
        !p.reverses,
        n <= p.size,
    ensures
        forall|i: int|
            0 <= i < leaders_upto(p, n).len() ==> 1 <= #[trigger] leaders_upto(p, n)[i] <= n
                && p.is_leader(leaders_upto(p, n)[i]),
        forall|i: int, k: int|
            0 <= i < k < leaders_upto(p, n).len() ==> #[trigger] leaders_upto(p, n)[i]
                < #[trigger] leaders_upto(p, n)[k],
        forall|e: int| 1 <= e <= n && #[trigger] p.is_leader(e) ==> leaders_upto(p, n).contains(e),
    decreases n,
{
    if n > 0 {
        lemma_leaders(p, n - 1);
        let prev = leaders_upto(p, n - 1);
        let cur = leaders_upto(p, n);
        if p.is_leader(n) {
            assert(cur == prev.push(n));
            assert forall|e: int| 1 <= e <= n && #[trigger] p.is_leader(e) implies cur.contains(e) by {
                if e == n {
                    assert(cur[prev.len() as int] == n);
                } else {
                    let i = choose|i: int| 0 <= i < prev.len() && prev[i] == e;
                    assert(cur[i] == e);
                }
            }
        }
    }
}

proof fn lemma_joined_last(items: Seq<Seq<char>>)
    requires
        items.len() >= 1,
        items.last().len() >= 1,
    ensures
        joined(items).len() >= 1,
        joined(items).last() == items.last().last(),
{
    if items.len() >= 2 {
        let j = joined(items);
        assert(j == joined(items.drop_last()) + seq![','] + items.last());
        assert(j[j.len() - 1] == items.last()[items.last().len() - 1]);
    }
}

proof fn lemma_piece(p: PermutationView, e: int)
    requires
        p.is_bijection(),
        !p.reverses,
        1 <= e <= p.size,
    ensures
        trim(cycle_piece(p, e)) == cycle_piece(p, e),
        !cycle_piece(p, e).contains(')'),
        piece_readable(cycle_piece(p, e), false),
        piece_values(cycle_piece(p, e), false) == orbit_seq(p, e),
{
    lemma_bijection_closes(p, e);
    let m = p.cycle_len(e);
    let items = orbit_items(p, e);
    let piece = cycle_piece(p, e);
    assert forall|j: int| 0 <= j < items.len() implies !(#[trigger] items[j]).contains(',')
        && !items[j].contains(')') && items[j].len() >= 1 && crate::text::is_digit(
        items[j].last(),
    ) && parsed_i32(trim(items[j])) == Some(p.iter(e, j as nat) as i32) by {
        lemma_iter_is_elem(p, e, j as nat);
        let x = p.iter(e, j as nat);
        assert(items[j] == int_text(x));
        lemma_positive_text_parses(x);
        lemma_decimal_reads(x as nat);
        let d = items[j];
        if d.contains(')') {
            let k = choose|k: int| 0 <= k < d.len() && d[k] == ')';
            assert(crate::text::is_digit(d[k]));
        }
        assert(crate::text::is_digit(d[d.len() - 1]));
    }
    lemma_joined_chars(items, ')');
    lemma_split_joined(items);
    lemma_joined_last(items);
    let jt = joined(items);
    assert(piece.last() == jt.last());
    assert(piece[0] == '(');
    assert(!is_ws(piece[0]));
    assert(!is_ws(piece.last()));
    assert(trim_start(piece) == piece);
    assert(trim_end(piece) == piece);
    assert(!piece.contains(')')) by {
        if piece.contains(')') {
            let k = choose|k: int| 0 <= k < piece.len() && piece[k] == ')';
            assert(k > 0);
            assert(jt[k - 1] == ')');
        }
    }
    assert(piece.drop_first() =~= jt);
    assert(piece_tokens(piece) == items);
    assert forall|j: int| 0 <= j < piece_tokens(piece).len() implies (#[trigger] cycle_token_value(
        piece_tokens(piece)[j],
        false,
    )) == Some(p.iter(e, j as nat)) by {
        lemma_iter_is_elem(p, e, j as nat);
    }
    assert(piece_values(piece, false) =~= orbit_seq(p, e));
}

proof fn lemma_split_closed(a: Seq<char>, y: Seq<char>)
    requires
        !y.contains(')'),
        split_on(a, ')').last() == Seq::<char>::empty(),
    ensures
        split_on(a + y + seq![')'], ')') == split_on(a, ')').drop_last().push(y).push(Seq::empty()),
{
    lemma_split_append_plain(a, y, ')');
    crate::text::lemma_split_on_len(a, ')');
    let t = a + y + seq![')'];
    assert(t.drop_last() =~= a + y);
    assert(t.last() == ')');
    assert(Seq::<char>::empty() + y =~= y);
    let s = split_on(a, ')');
    assert(s.update(s.len() - 1, y) =~= s.drop_last().push(y));
}

proof fn lemma_text_split(p: PermutationView, n: int)
    requires
        p.is_bijection(),
        !p.reverses,
        0 <= n <= p.size,
    ensures
        split_on(p.cycles_text_upto(n), ')') == pieces_upto(p, n).push(Seq::empty()),
    decreases n,
{
    if n == 0 {
        assert(p.cycles_text_upto(0) == Seq::<char>::empty());
        assert(pieces_upto(p, 0) =~= Seq::<Seq<char>>::empty());
        assert(split_on(Seq::<char>::empty(), ')') =~= seq![Seq::<char>::empty()]);
        assert(Seq::<Seq<char>>::empty().push(Seq::<char>::empty()) =~= seq![Seq::<char>::empty()]);
    } else {
        lemma_text_split(p, n - 1);
        let prev = pieces_upto(p, n - 1);
        if p.is_leader(n) {
            lemma_piece(p, n);
            let t = p.cycles_text_upto(n - 1);
            assert(p.cycles_text_upto(n) == t + p.cycle_text(n));
            assert(p.cycle_text(n) == cycle_piece(p, n) + seq![')']);
            assert(t + (cycle_piece(p, n) + seq![')']) =~= t + cycle_piece(p, n) + seq![')']);
            assert(split_on(t, ')').last() == Seq::<char>::empty());
            lemma_split_closed(t, cycle_piece(p, n));
            assert(split_on(t, ')').drop_last() =~= prev);
            assert(pieces_upto(p, n) =~= prev.push(cycle_piece(p, n)));
        } else {
            assert(pieces_upto(p, n) =~= prev);
        }
    }
}

proof fn lemma_nonblank_all(s: Seq<Seq<char>>)
    requires
        forall|i: int| 0 <= i < s.len() ==> trim(#[trigger] s[i]).len() > 0,
    ensures
        nonblank_pieces(s) == s,
        nonblank_pieces(s.push(Seq::empty())) == s,
    decreases s.len(),
{
    let e = Seq::<char>::empty();
    assert(trim_start(e) == e);
    assert(trim_end(e) == e);
    assert(s.push(e).drop_last() =~= s);
    if s.len() > 0 {
        let f = s.drop_last();
        assert forall|i: int| 0 <= i < f.len() implies trim(#[trigger] f[i]).len() > 0 by {
            assert(f[i] == s[i]);
        }
        lemma_nonblank_all(f);
        assert(trim(s.last()).len() > 0) by {
            assert(s[s.len() - 1] == s.last());
        }
        assert(f.push(s.last()) =~= s);
    }
}

proof fn lemma_text_opens(p: PermutationView, n: int)
    requires
        p.is_bijection(),
        !p.reverses,
        1 <= n <= p.size,
    ensures
        p.cycles_text_upto(n).len() >= 1,
        p.cycles_text_upto(n)[0] == '(',
    decreases n,
{
    if n == 1 {
        lemma_bijection_closes(p, 1);
        assert(p.is_elem(1));
        assert(p.is_elem(p.app(1)));
        assert forall|j: nat| j < p.cycle_len(1) implies abs(#[trigger] p.iter(1, j)) >= 1 by {
            lemma_iter_is_elem(p, 1, j);
        }
        assert(p.is_leader(1));
        assert(p.cycles_text_upto(0) == Seq::<char>::empty());
        assert(p.cycles_text_upto(1) =~= p.cycle_text(1));
    } else {
        lemma_text_opens(p, n - 1);
        let t = p.cycles_text_upto(n - 1);
        if p.is_leader(n) {
            assert(p.cycles_text_upto(n)[0] == t[0]);
        }
    }
}

/// Each element of a bijection lies on the cycle of the least element of its cycle, which
/// leads that cycle.
proof fn lemma_has_leader(p: PermutationView, e: int) -> (l: (int, nat))
    requires
        p.is_bijection(),
        !p.reverses,
        1 <= e <= p.size,
    ensures
        1 <= l.0 <= p.size,
        p.is_leader(l.0),
        l.1 < p.cycle_len(l.0),
        p.iter(l.0, l.1) == e,
{
    lemma_bijection_closes(p, e);
    let m = p.cycle_len(e);
    let j0 = least_on_cycle(p, e, m);
    lemma_least_on_cycle(p, e, m);
    let lead = p.iter(e, j0);
    lemma_iter_is_elem(p, e, j0);
    lemma_bijection_closes(p, lead);
    let ml = p.cycle_len(lead);
    assert(p.is_elem(p.app(lead)));
    assert forall|j: nat| j < ml implies abs(#[trigger] p.iter(lead, j)) >= lead by {
        lemma_iter_add(p, e, j0, j);
        lemma_iter_mod(p, e, j0 + j);
        let k = ((j0 + j) % m) as nat;
        assert(k < m);
        lemma_iter_is_elem(p, e, k);
        assert(p.iter(e, k) >= lead);
    }
    assert(p.is_leader(lead));
    let back = (m - j0) as nat;
    lemma_iter_add(p, e, j0, back);
    assert(j0 + back == m);
    assert(p.iter(lead, back) == e);
    lemma_iter_mod(p, lead, back);
    (lead, (back % ml) as nat)
}

/// The step (below `k`) at which the cycle through `e` reaches its least element.
pub open spec fn least_on_cycle(p: PermutationView, e: int, k: nat) -> nat
    decreases k,
{
    if k <= 1 {
        0
    } else {
        let j = least_on_cycle(p, e, (k - 1) as nat);
        if p.iter(e, (k - 1) as nat) < p.iter(e, j) {
            (k - 1) as nat
        } else {
            j
        }
    }
}

proof fn lemma_least_on_cycle(p: PermutationView, e: int, k: nat)
    requires
        k >= 1,
    ensures
        least_on_cycle(p, e, k) < k,
        forall|j: nat| j < k ==> p.iter(e, least_on_cycle(p, e, k)) <= #[trigger] p.iter(e, j),
    decreases k,
{
    if k > 1 {
        lemma_least_on_cycle(p, e, (k - 1) as nat);
    }
}

/// The cycle form of a permutation that does not reverse reads back as valid cycle
/// notation that sends each element to its image, so parsing it gives the same
/// permutation.
pub proof fn lemma_cycles_text_reads_back(p: PermutationView)
    requires
        p.is_bijection(),
        !p.reverses,
        p.size >= 1,
    ensures
        p.cycles_text().contains('('),
        cycles_valid(p.cycles_text(), p.size, false),
        forall|e: int|
            1 <= e <= p.size ==> #[trigger] cycle_image(cycles_of(p.cycles_text(), false), e, false)
                == p.app(e),
{
    let n = p.size as int;
    let t = p.cycles_text();
    let leaders = leaders_upto(p, n);
    let pieces = pieces_upto(p, n);
    lemma_text_opens(p, n);
    assert(t[0] == '(');
    lemma_leaders(p, n);
    lemma_text_split(p, n);
    assert forall|i: int| 0 <= i < pieces.len() implies trim(#[trigger] pieces[i]).len() > 0
        && piece_readable(pieces[i], false) && piece_values(pieces[i], false) == orbit_seq(
        p,
        leaders[i],
    ) by {
        lemma_piece(p, leaders[i]);
        assert(cycle_piece(p, leaders[i])[0] == '(');
    }
    lemma_nonblank_all(pieces);
    assert(cycle_pieces(t) == pieces);
    let c = cycles_of(t, false);
    assert(c.len() == leaders.len());
    assert forall|i: int| 0 <= i < c.len() implies #[trigger] c[i] == orbit_seq(p, leaders[i]) by {}
    assert forall|i: int, j: int| 0 <= i < c.len() && 0 <= j < c[i].len() implies #[trigger] c[i][j]
        == p.iter(leaders[i], j as nat) && nameable(c[i][j], p.size, false) by {
        lemma_iter_is_elem(p, leaders[i], j as nat);
    }
    assert forall|i1: int, j1: int, i2: int, j2: int|
        0 <= i1 < c.len() && 0 <= j1 < c[i1].len() && 0 <= i2 < c.len() && 0 <= j2 < c[i2].len()
            && (i1 != i2 || j1 != j2) implies #[trigger] c[i1][j1] != #[trigger] c[i2][j2] by {
        if c[i1][j1] == c[i2][j2] {
            lemma_same_element(p, leaders[i1], j1 as nat, leaders[i2], j2 as nat);
            if i1 != i2 {
                if i1 < i2 {
                    assert(leaders[i1] < leaders[i2]);
                } else {
                    assert(leaders[i2] < leaders[i1]);
                }
            }
        }
    }
    assert(cycles_distinct(c, p.size, false));
    assert forall|e: int| 1 <= e <= p.size implies #[trigger] cycle_image(c, e, false) == p.app(e) by {
        let (lead, k) = lemma_has_leader(p, e);
        let i = choose|i: int| 0 <= i < leaders.len() && leaders[i] == lead;
        assert(c[i][k as int] == e);
        assert(occurs(c, e));
        lemma_position(c, e);
        let pos = position(c, e);
        let l2 = leaders[pos.0];
        let len2 = p.cycle_len(l2);
        lemma_bijection_closes(p, l2);
        assert(p.iter(l2, pos.1 as nat) == e);
        lemma_iter_mod(p, l2, (pos.1 + 1) as nat);
        assert(successor(c, e) == p.iter(l2, ((pos.1 + 1) % (len2 as int)) as nat));
        assert(p.iter(l2, (pos.1 + 1) as nat) == p.app(p.iter(l2, pos.1 as nat)));
    }
}

/// Two leaders whose cycles meet are the same leader, and an element occurs once on the
/// cycle.
proof fn lemma_same_element(p: PermutationView, a: int, ja: nat, b: int, jb: nat)
    requires
        p.is_bijection(),
        !p.reverses,
        1 <= a <= p.size,
        1 <= b <= p.size,
        p.is_leader(a),
        p.is_leader(b),
        ja < p.cycle_len(a),
        jb < p.cycle_len(b),
        p.iter(a, ja) == p.iter(b, jb),
    ensures
        a == b,
        ja == jb,
{
    lemma_bijection_closes(p, a);
    lemma_bijection_closes(p, b);
    let ma = p.cycle_len(a);
    let mb = p.cycle_len(b);
    // `b` lies on the cycle of `a`, and `a` on that of `b`.
    lemma_iter_add(p, b, jb, (mb - jb) as nat);
    lemma_iter_add(p, a, ja, (mb - jb) as nat);
    let kb = (ja + (mb - jb)) as nat;
    assert(p.iter(a, kb) == b);
    lemma_iter_mod(p, a, kb);
    let ka = (kb % ma) as nat;
    assert(abs(p.iter(a, ka)) >= a);
    lemma_iter_add(p, a, ja, (ma - ja) as nat);
    lemma_iter_add(p, b, jb, (ma - ja) as nat);
    let kc = (jb + (ma - ja)) as nat;
    assert(p.iter(b, kc) == a);
    lemma_iter_mod(p, b, kc);
    let kd = (kc % mb) as nat;
    assert(abs(p.iter(b, kd)) >= b);
    lemma_iter_is_elem(p, a, ka);
    lemma_iter_is_elem(p, b, kd);
    assert(a == b);
    if ja != jb {
        let (lo, hi) = if ja < jb { (ja, jb) } else { (jb, ja) };
        let d = (ma - hi) as nat;
        lemma_iter_add(p, a, lo, d);
        lemma_iter_add(p, a, hi, d);
        assert(p.iter(a, (hi + d) as nat) == a);
        assert(p.iter(a, (lo + d) as nat) == a);
        assert(1 <= lo + d < ma);
    }
}

} // verus!
