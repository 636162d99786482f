use vstd::prelude::*;

verus! {

/// One cell of the dynamic-programming grid: the length of the longest common
/// subsequence of two prefixes, and whether the last characters of the prefixes
/// matched.
#[derive(Copy, Clone, Debug, PartialEq, Eq, Structural)]
pub struct Element {
    pub length: u8,
    pub matched: bool,
}

/// The largest length an `Element` can hold.
pub const ELEMENT_MAX: u8 = 255;

pub open spec fn empty_element() -> Element {
    Element { length: 0, matched: false }
}

pub open spec fn max_u8(a: u8, b: u8) -> u8 {
    if a >= b { a } else { b }
}

impl Element {
    pub fn empty() -> (e: Self)
        ensures
            e == empty_element(),
    {
        Self { length: 0, matched: false }
    }

    pub fn matched(self) -> (b: bool)
        ensures
            b == self.matched,
    {
        self.matched
    }

    pub fn length(self) -> (l: u8)
        ensures
            l == self.length,
    {
        self.length
    }

    /// A matched cell one longer than `other`; fails when that would exceed the
    /// largest representable length.
    pub fn new_matched(other: Self) -> (r: Result<Self, ()>)
        ensures
            other.length < ELEMENT_MAX ==> r == Ok::<Element, ()>(
                Element { length: (other.length + 1) as u8, matched: true },
            ),
            other.length >= ELEMENT_MAX ==> r is Err,
    {
        if other.length() < ELEMENT_MAX {
            Ok(Self { length: other.length() + 1, matched: true })
        } else {
            Err(())
        }
    }

    /// An unmatched cell as long as the longer of the two given cells.
    pub fn new_not_matched(other1: Self, other2: Self) -> (e: Self)
        ensures
            e == (Element { length: max_u8(other1.length, other2.length), matched: false }),
    {
        let length = if other1.length() >= other2.length() {
            other1.length()
        } else {
            other2.length()
        };
        Self { length, matched: false }
    }
}

/// A column-major grid of `Element`s with a fixed, positive height. Columns are
/// appended and removed at the right end. Row and column 0 are implicit borders of
/// empty elements.
#[derive(Debug)]
pub struct Grid {
    grid: Vec<Element>,
    height: usize,
}

impl View for Grid {
    /// The columns of the grid, left to right, each of `height` elements.
    type V = Seq<Seq<Element>>;

    closed spec fn view(&self) -> Seq<Seq<Element>> {
        Seq::new(
            (self.grid@.len() as int / self.height as int) as nat,
            |k: int| Seq::new(self.height as nat, |r: int| self.grid@[k * self.height + r]),
        )
    }
}

proof fn lemma_cell_index(h: int, n: int, k: int, r: int)
    requires
        h > 0,
        0 <= k < n,
        0 <= r < h,
    ensures
        0 <= k * h + r < n * h,
        k * h + h <= n * h,
{
    assert(0 <= k * h) by (nonlinear_arith)
        requires
            0 <= k,
            h > 0,
    ;
    assert(k * h + h <= n * h) by (nonlinear_arith)
        requires
            k < n,
            h > 0,
    ;
}

proof fn lemma_div_exact(len: int, h: int)
    requires
        h > 0,
        len >= 0,
        len % h == 0,
    ensures
        len == (len / h) * h,
        (len + h) / h == len / h + 1,
        (len + h) % h == 0,
{
    vstd::arithmetic::div_mod::lemma_fundamental_div_mod(len, h);
    assert(len == (len / h) * h) by (nonlinear_arith)
        requires
            len == h * (len / h) + len % h,
            len % h == 0,
    ;
    vstd::arithmetic::div_mod::lemma_div_multiples_vanish(len / h + 1, h);
    vstd::arithmetic::div_mod::lemma_mod_multiples_basic(len / h + 1, h);
    assert(h * (len / h + 1) == len + h) by (nonlinear_arith)
        requires
            len == (len / h) * h,
    ;
    assert((len / h + 1) * h == len + h) by (nonlinear_arith)
        requires
            len == (len / h) * h,
    ;
}

/// The relation between a freshly computed column `col`, the grid `g` it was
/// appended to, and the recurrence that produced it: row `r` (1-based) was computed
/// from the element to its left, the element above it in the new column and the
/// element diagonally up-left.
pub open spec fn column_from<F: Fn(usize, Element, Element, Element) -> Result<Element, ()>>(
    recur: F,
    g: Grid,
    col: Seq<Element>,
) -> bool {
    &&& col.len() == g.height()
    &&& forall|r: int|
        1 <= r <= g.height() ==> recur.ensures(
            (
                r as usize,
                g.cell(r, g.ncols() as int),
                if r == 1 {
                    empty_element()
                } else {
                    col[r - 2]
                },
                g.cell(r - 1, g.ncols() as int),
            ),
            Ok::<Element, ()>(#[trigger] col[r - 1]),
        )
}

impl Grid {
    /// The number of rows.
    pub closed spec fn height(&self) -> nat {
        self.height as nat
    }

    pub closed spec fn inv(&self) -> bool {
        &&& self.height > 0
        &&& self.grid@.len() as int % self.height as int == 0
    }

    /// The grid is well formed: positive height and every column that tall.
    pub open spec fn wf(&self) -> bool {
        &&& self.inv()
        &&& 0 < self.height() <= usize::MAX
        &&& forall|k: int| 0 <= k < self@.len() ==> (#[trigger] self@[k]).len() == self.height()
    }

    /// The number of columns.
    pub open spec fn ncols(&self) -> nat {
        self@.len()
    }

    /// The element at 1-based row `r` and column `k`; row 0 and column 0 are empty.
    pub open spec fn cell(&self, r: int, k: int) -> Element {
        if r == 0 || k == 0 {
            empty_element()
        } else {
            self@[k - 1][r - 1]
        }
    }

    proof fn lemma_wf(&self)
        requires
            self.inv(),
        ensures
            self.wf(),
            self.grid@.len() == self.ncols() * self.height(),
    {
        lemma_div_exact(self.grid@.len() as int, self.height as int);
    }

    pub fn new_usize(height: usize) -> (g: Self)
        requires
            height > 0,
        ensures
            g.wf(),
            g.height() == height,
            g@ == Seq::<Seq<Element>>::empty(),
    {
        let g = Grid { grid: Vec::new(), height };
        proof {
            g.lemma_wf();
            assert(g@ =~= Seq::<Seq<Element>>::empty());
        }
        g
    }

    /// An empty grid of the given positive height.
    pub fn new(height: usize) -> (g: Self)
        requires
            height > 0,
        ensures
            g.wf(),
            g.height() == height,
            g@ == Seq::<Seq<Element>>::empty(),
    {
        Self::new_usize(height)
    }

    /// The number of stored elements.
    pub fn len(&self) -> (l: usize)
        requires
            self.wf(),
        ensures
            l == self.ncols() * self.height(),
    {
        proof {
            self.lemma_wf();
        }
        self.grid.len()
    }

    pub fn is_empty(&self) -> (b: bool)
        requires
            self.wf(),
        ensures
            b == (self.ncols() == 0),
    {
        proof {
            self.lemma_wf();
            if self.ncols() != 0 {
                assert(self.ncols() * self.height() > 0) by (nonlinear_arith)
                    requires
                        self.ncols() > 0,
                        self.height() > 0,
                ;
            }
        }
        self.grid.len() == 0
    }

    pub fn columns_non_zero(&self) -> (n: usize)
        requires
            self.wf(),
        ensures
            n == self.ncols(),
    {
        self.grid.len() / self.height
    }

    /// The 1-based coordinates of the bottom-right cell.
    pub fn bottom_right(&self) -> (p: (usize, usize))
        requires
            self.wf(),
        ensures
            p.0 == self.height(),
            p.1 == self.ncols(),
    {
        (self.height, self.columns_non_zero())
    }

    /// The element at 1-based `row` and `col`: the empty element on the borders,
    /// `None` outside the grid.
    pub fn get(&self, row: usize, col: usize) -> (e: Option<Element>)
        requires
            self.wf(),
        ensures
            (row == 0 || col == 0) ==> e == Some(empty_element()),
            (row != 0 && col != 0 && row <= self.height() && col <= self.ncols()) ==> e == Some(
                self.cell(row as int, col as int),
            ),
            (row != 0 && col != 0 && (row > self.height() || col > self.ncols())) ==> e is None,
    {
        if row == 0 || col == 0 {
            return Some(Element::empty());
        }
        if (row - 1) >= self.height || (col - 1) >= self.columns_non_zero() {
            return None;
        }
        proof {
            self.lemma_wf();
            lemma_cell_index(
                self.height as int,
                self.ncols() as int,
                col - 1,
                row - 1,
            );
        }
        let len = self.grid.len();
        let idx = (col - 1) * self.height + (row - 1);
        Some(self.grid[idx])
    }

    /// The bottom element of the last column.
    pub fn get_last(&self) -> (e: Option<Element>)
        requires
            self.wf(),
        ensures
            self.ncols() == 0 ==> e is None,
            self.ncols() > 0 ==> e == Some(self.cell(self.height() as int, self.ncols() as int)),
    {
        proof {
            self.lemma_wf();
            if self.ncols() > 0 {
                lemma_cell_index(
                    self.height as int,
                    self.ncols() as int,
                    self.ncols() - 1,
                    self.height - 1,
                );
                assert((self.ncols() - 1) * self.height() + self.height() - 1 == self.grid@.len()
                    - 1) by (nonlinear_arith)
                    requires
                        self.grid@.len() == self.ncols() * self.height(),
                ;
            } else {
                assert(self.ncols() * self.height() == 0) by (nonlinear_arith)
                    requires
                        self.ncols() == 0,
                ;
            }
        }
        if self.grid.len() == 0 {
            None
        } else {
            Some(self.grid[self.grid.len() - 1])
        }
    }

    /// Removes the rightmost column.
    pub fn pop_col(&mut self)
        requires
            old(self).wf(),
            old(self).ncols() > 0,
        ensures
            final(self).wf(),
            final(self).height() == old(self).height(),
            final(self)@ == old(self)@.drop_last(),
    {
        proof {
            self.lemma_wf();
        }
        let ghost old_grid = self.grid@;
        let ghost n = self.ncols() as int;
        let h = self.height;
        proof {
            assert(old_grid.len() >= h) by (nonlinear_arith)
                requires
                    old_grid.len() == n * h,
                    n > 0,
            ;
        }
        let mut i: usize = 0;
        while i < h
            invariant
                self.height == h,
                h > 0,
                i <= h,
                old_grid.len() >= h,
                self.grid@ == old_grid.subrange(0, old_grid.len() - i),
            decreases h - i,
        {
            self.grid.pop();
            i += 1;
        }
        proof {
            let len = self.grid@.len() as int;
            assert(len == (n - 1) * h) by (nonlinear_arith)
                requires
                    len == old_grid.len() - h,
                    old_grid.len() == n * h,
            ;
            vstd::arithmetic::div_mod::lemma_mod_multiples_basic(n - 1, h as int);
            vstd::arithmetic::div_mod::lemma_div_multiples_vanish(n - 1, h as int);
            assert(h * (n - 1) == (n - 1) * h) by (nonlinear_arith);
            self.lemma_wf();
            assert forall|k: int, r: int| 0 <= k < n - 1 && 0 <= r < h implies #[trigger] self.grid@[k * h
                + r] == old_grid[k * h + r] by {
                lemma_cell_index(h as int, n - 1, k, r);
            }
            assert forall|k: int| 0 <= k < n - 1 implies #[trigger] self@[k] =~= old(self)@[k] by {
                assert forall|r: int| 0 <= r < h implies #[trigger] self@[k][r] == old(self)@[k][r] by {
                    lemma_cell_index(h as int, n - 1, k, r);
                }
            }
            assert(self@ =~= old(self)@.drop_last());
        }
    }

    /// Appends a column computed top to bottom by `recur`, which gets the 1-based
    /// row, the element to the left, the element above (in the new column) and the
    /// element diagonally up-left. On the first failure of `recur` the grid is left
    /// unchanged and `Err` is returned.
    pub fn generate_col<F: Fn(usize, Element, Element, Element) -> Result<Element, ()>>(
        &mut self,
        recur: F,
    ) -> (res: Result<(), ()>)
        requires
            old(self).wf(),
            forall|r: usize, a: Element, b: Element, c: Element|
                1 <= r <= old(self).height() ==> #[trigger] recur.requires((r, a, b, c)),
        ensures
            final(self).wf(),
            final(self).height() == old(self).height(),
            res is Ok ==> final(self)@ == old(self)@.push(final(self)@.last()) && column_from(
                recur,
                *old(self),
                final(self)@.last(),
            ),
            res is Err ==> final(self)@ == old(self)@ && exists|r: usize, up: Element, e: Result<Element, ()>|
                1 <= r <= old(self).height() && e is Err && #[trigger] recur.ensures(
                    (
                        r,
                        old(self).cell(r as int, old(self).ncols() as int),
                        up,
                        old(self).cell(r - 1, old(self).ncols() as int),
                    ),
                    e,
                ),
    {
        proof {
            self.lemma_wf();
        }
        let ghost old_self = *self;
        let ghost n = self.ncols() as int;
        let org_len = self.grid.len();
        let h = self.height;
        let mut up = Element::empty();
        let mut row: usize = 0;
        while row < h
            invariant
                self.height == h,
                h > 0,
                old_self == *old(self),
                old_self.wf(),
                old_self.height == h,
                n == old_self.ncols(),
                org_len == old_self.grid@.len(),
                org_len == n * h,
                row <= h,
                self.grid@.len() == org_len + row,
                self.grid@.subrange(0, org_len as int) == old_self.grid@,
                up == (if row == 0 {
                    empty_element()
                } else {
                    self.grid@[org_len + row - 1]
                }),
                forall|r: usize, a: Element, b: Element, c: Element|
                    1 <= r <= h ==> #[trigger] recur.requires((r, a, b, c)),
                forall|i: int|
                    1 <= i <= row ==> recur.ensures(
                        (
                            i as usize,
                            old_self.cell(i, n),
                            if i == 1 {
                                empty_element()
                            } else {
                                self.grid@[org_len + i - 2]
                            },
                            old_self.cell(i - 1, n),
                        ),
                        Ok::<Element, ()>(#[trigger] self.grid@[org_len + i - 1]),
                    ),
            decreases h - row,
        {
            proof {
                if n > 0 {
                    lemma_cell_index(h as int, n, n - 1, row as int);
                    assert((n - 1) * h + h == n * h) by (nonlinear_arith);
                } else {
                    assert(org_len == 0) by (nonlinear_arith)
                        requires
                            org_len == n * h,
                            n == 0,
                    ;
                }
            }
            let left = if org_len == 0 {
                Element::empty()
            } else {
                self.grid[org_len - h + row]
            };
            let upleft = if org_len == 0 || row == 0 {
                Element::empty()
            } else {
                self.grid[org_len - h + row - 1]
            };
            proof {
                if n > 0 {
                    assert(left == old_self.cell(row + 1, n));
                    if row > 0 {
                        lemma_cell_index(h as int, n, n - 1, row - 1);
                        assert(upleft == old_self.cell(row as int, n));
                    }
                } else {
                    assert(org_len == 0) by (nonlinear_arith)
                        requires
                            org_len == n * h,
                            n == 0,
                    ;
                }
            }
            let r1 = row + 1;
            let res = recur(r1, left, up, upleft);
            proof {
                assert(left == old_self.cell(row + 1, n));
                assert(upleft == old_self.cell(row as int, n));
                assert(recur.ensures((r1, left, up, upleft), res));
            }
            match res {
                Ok(x) => {
                    self.grid.push(x);
                    up = x;
                    proof {
                        assert(self.grid@.subrange(0, org_len as int) =~= old_self.grid@);
                    }
                },
                Err(_) => {
                    self.grid.truncate(org_len);
                    proof {
                        assert(self.grid@ =~= old_self.grid@);
                        assert(res is Err && recur.ensures((r1, old_self.cell(row + 1, n), up, old_self.cell(row as int, n)), res));
                    }
                    return Err(());
                },
            }
            row += 1;
        }
        proof {
            lemma_div_exact(org_len as int, h as int);
            self.lemma_wf();
            assert(self.ncols() == n + 1);
            assert forall|k: int, r: int| 0 <= k < n && 0 <= r < h implies #[trigger] self.grid@[k * h + r]
                == old_self.grid@[k * h + r] by {
                lemma_cell_index(h as int, n, k, r);
            }
            assert forall|r: int| 0 <= r < h implies #[trigger] self.grid@[n * h + r] == self.grid@[org_len
                + r] by {}
            assert forall|k: int| 0 <= k < n implies #[trigger] self@[k] =~= old_self@[k] by {
                assert forall|r: int| 0 <= r < h implies #[trigger] self@[k][r] == old_self@[k][r] by {
                    lemma_cell_index(h as int, n, k, r);
                }
            }
            assert(self@.drop_last() =~= old_self@);
            assert(self@ =~= old_self@.push(self@.last()));
            let col = self@.last();
            assert forall|r: int| 1 <= r <= h implies #[trigger] col[r - 1] == self.grid@[org_len + r - 1] by {}
            assert(column_from(recur, old_self, col));
        }
        Ok(())
    }
}

} // verus!
