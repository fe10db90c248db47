//! The public table: its values and the polynomial that takes them on the
//! table's domain.

use vstd::prelude::*;
use crate::domain::{Domain, interpolation, is_pow2, max_domain_size};
use crate::error::Error;
use crate::field::{Scalar, all_wf, values};
use crate::modmath::canon;
use crate::poly::truncated;

verus! {

/// Row `a` comes before row `b`: by value, and by row number among rows of
/// one value.
pub open spec fn row_before(vals: Seq<Scalar>, a: int, b: int) -> bool {
    vals[a]@ < vals[b]@ || (vals[a]@ == vals[b]@ && a < b)
}

/// Every entry is a row number.
pub open spec fn rows_in_range(vals: Seq<Scalar>, order: Seq<usize>) -> bool {
    forall|k: int| 0 <= k < order.len() ==> #[trigger] order[k] < vals.len()
}

/// The row numbers stand in the order of their rows.
pub open spec fn sorted_rows(vals: Seq<Scalar>, order: Seq<usize>) -> bool {
    forall|i: int, j: int|
        0 <= i < j < order.len() ==> row_before(
            vals,
            #[trigger] order[i] as int,
            #[trigger] order[j] as int,
        )
}

/// The row number `r` occurs.
pub open spec fn holds_row(order: Seq<usize>, r: int) -> bool {
    exists|k: int| 0 <= k < order.len() && #[trigger] order[k] == r
}

/// The number of rows, in their order, whose value is below `value`: the
/// position of the first row that is not.
fn lower_bound(vals: &Vec<Scalar>, order: &Vec<usize>, value: &Scalar) -> (k: usize)
    requires
        rows_in_range(vals@, order@),
        sorted_rows(vals@, order@),
    ensures
        k <= order.len(),
        forall|i: int| 0 <= i < k ==> vals[(#[trigger] order[i]) as int]@ < value@,
        forall|i: int| k <= i < order.len() ==> vals[(#[trigger] order[i]) as int]@ >= value@,
{
    let mut lo: usize = 0;
    let mut hi: usize = order.len();
    while lo < hi
        invariant
            lo <= hi <= order.len(),
            rows_in_range(vals@, order@),
            sorted_rows(vals@, order@),
            forall|i: int| 0 <= i < lo ==> vals[(#[trigger] order[i]) as int]@ < value@,
            forall|i: int| hi <= i < order.len() ==> vals[(#[trigger] order[i]) as int]@ >= value@,
        decreases hi - lo,
    {
        let mid = lo + (hi - lo) / 2;
        if vals[order[mid]].lt(value) {
            proof {
                assert forall|i: int| 0 <= i < mid + 1 implies vals[(#[trigger] order[i]) as int]@
                    < value@ by {
                    if i < mid {
                        assert(row_before(vals@, order[i] as int, order[mid as int] as int));
                    }
                }
            }
            lo = mid + 1;
        } else {
            proof {
                assert forall|i: int| mid <= i < order.len() implies vals[(#[trigger] order[i]) as int]@ >= value@ by {
                    if i > mid {
                        assert(row_before(vals@, order[mid as int] as int, order[i] as int));
                    }
                }
            }
            hi = mid;
        }
    }
    lo
}

/// The number of rows, in their order, whose value is not above `value`: the
/// position of the first row that is.
fn upper_bound(vals: &Vec<Scalar>, order: &Vec<usize>, value: &Scalar) -> (k: usize)
    requires
        rows_in_range(vals@, order@),
        sorted_rows(vals@, order@),
    ensures
        k <= order.len(),
        forall|i: int| 0 <= i < k ==> vals[(#[trigger] order[i]) as int]@ <= value@,
        forall|i: int| k <= i < order.len() ==> vals[(#[trigger] order[i]) as int]@ > value@,
{
    let mut lo: usize = 0;
    let mut hi: usize = order.len();
    while lo < hi
        invariant
            lo <= hi <= order.len(),
            rows_in_range(vals@, order@),
            sorted_rows(vals@, order@),
            forall|i: int| 0 <= i < lo ==> vals[(#[trigger] order[i]) as int]@ <= value@,
            forall|i: int| hi <= i < order.len() ==> vals[(#[trigger] order[i]) as int]@ > value@,
        decreases hi - lo,
    {
        let mid = lo + (hi - lo) / 2;
        if value.lt(&vals[order[mid]]) {
            proof {
                assert forall|i: int| mid <= i < order.len() implies vals[(#[trigger] order[i]) as int]@ > value@ by {
                    if i > mid {
                        assert(row_before(vals@, order[mid as int] as int, order[i] as int));
                    }
                }
            }
            hi = mid;
        } else {
            proof {
                assert forall|i: int| 0 <= i < mid + 1 implies vals[(#[trigger] order[i]) as int]@
                    <= value@ by {
                    if i < mid {
                        assert(row_before(vals@, order[i] as int, order[mid as int] as int));
                    }
                }
            }
            lo = mid + 1;
        }
    }
    lo
}

/// The row numbers in the order of their rows: by value, and by row number
/// among rows of one value.
pub fn sort_rows(vals: &Vec<Scalar>) -> (order: Vec<usize>)
    ensures
        order.len() == vals.len(),
        rows_in_range(vals@, order@),
        sorted_rows(vals@, order@),
        forall|r: int| 0 <= r < vals.len() ==> holds_row(order@, r),
{
    let mut order: Vec<usize> = Vec::new();
    let mut i: usize = 0;
    while i < vals.len()
        invariant
            i <= vals.len(),
            order.len() == i,
            forall|k: int| 0 <= k < order.len() ==> #[trigger] order[k] < i,
            sorted_rows(vals@, order@),
            forall|r: int| 0 <= r < i ==> holds_row(order@, r),
        decreases vals.len() - i,
    {
        let at = upper_bound(vals, &order, &vals[i]);
        let ghost before = order@;
        order.insert(at, i);
        proof {
            before.insert_ensures(at as int, i);
            let after = order@;
            assert forall|a: int, b: int| 0 <= a < b < after.len() implies row_before(
                vals@,
                #[trigger] after[a] as int,
                #[trigger] after[b] as int,
            ) by {
                if a < at {
                    assert(after[a] == before[a]);
                } else if a > at {
                    assert(after[(a - 1) + 1] == before[a - 1]);
                }
                if b < at {
                    assert(after[b] == before[b]);
                } else if b > at {
                    assert(after[(b - 1) + 1] == before[b - 1]);
                }
            }
            assert forall|k: int| 0 <= k < after.len() implies #[trigger] after[k] < i + 1 by {
                if k < at {
                    assert(after[k] == before[k]);
                } else if k > at {
                    assert(after[(k - 1) + 1] == before[k - 1]);
                }
            }
            assert forall|r: int| 0 <= r < i + 1 implies holds_row(after, r) by {
                if r == i {
                    assert(after[at as int] == r);
                } else {
                    assert(holds_row(before, r));
                    let k = choose|k: int| 0 <= k < before.len() && #[trigger] before[k] == r;
                    if k < at {
                        assert(after[k] == r);
                    } else {
                        assert(after[k + 1] == before[k]);
                    }
                }
            }
        }
        i += 1;
    }
    order
}

/// A table of `size` values, `size` a power of two and at least two, with
/// the polynomial that takes them on the table's domain and the row numbers
/// sorted by value, in which a value is found by halving.
pub struct Table {
    pub size: usize,
    pub values: Vec<Scalar>,
    pub domain: Domain,
    pub poly: Vec<Scalar>,
    pub order: Vec<usize>,
}

impl Table {
    /// The coefficients of the table's polynomial.
    pub open spec fn coeffs(&self) -> Seq<int> {
        values(self.poly@)
    }

    pub open spec fn wf(&self) -> bool {
        &&& self.size == self.values.len()
        &&& self.size >= 2
        &&& self.domain.wf()
        &&& self.domain.size() == self.size
        &&& all_wf(self.values@)
        &&& all_wf(self.poly@)
        &&& self.poly.len() == self.size
        &&& forall|k: int|
            0 <= k < self.size ==> (#[trigger] self.poly[k])@ == canon(
                interpolation(values(self.values@), self.domain.omega(), self.domain.size_inv())[k],
            )
        &&& self.order.len() == self.size
        &&& rows_in_range(self.values@, self.order@)
        &&& sorted_rows(self.values@, self.order@)
        &&& forall|r: int| 0 <= r < self.size ==> holds_row(self.order@, r)
    }

    /// The table of the given values. The number of values must be a power
    /// of two, at least two and at most `2^28`.
    pub fn new(values: &Vec<Scalar>) -> (r: Result<Table, Error>)
        requires
            all_wf(values@),
        ensures
            r.is_ok() == (is_pow2(values.len() as int) && 2 <= values.len() <= max_domain_size()),
            r matches Ok(t) ==> t.wf() && t.values@ == values@,
            r matches Err(e) ==> e == Error::TableSizeError,
    {
        if values.len() < 2 {
            return Err(Error::TableSizeError);
        }
        let domain = match Domain::new(values.len()) {
            Ok(d) => d,
            Err(e) => {
                return Err(e);
            },
        };
        let poly = domain.interpolate(values);
        let copy = truncated(values, values.len());
        proof {
            assert(copy@ =~= values@);
        }
        let order = sort_rows(&copy);
        Ok(Table { size: values.len(), values: copy, domain, poly, order })
    }

    /// The first row that holds `value`, if any does: found among the sorted
    /// row numbers by halving.
    pub fn find_row(&self, value: &Scalar) -> (r: Option<usize>)
        requires
            self.wf(),
        ensures
            r matches Some(i) ==> i < self.values.len() && self.values[i as int]@ == value@
                && forall|k: int| 0 <= k < i ==> (#[trigger] self.values[k])@ != value@,
            r.is_none() ==> forall|k: int|
                0 <= k < self.values.len() ==> (#[trigger] self.values[k])@ != value@,
    {
        let at = lower_bound(&self.values, &self.order, value);
        if at < self.order.len() && self.values[self.order[at]].eq(value) {
            let row = self.order[at];
            proof {
                assert forall|k: int| 0 <= k < row implies (#[trigger] self.values[k])@
                    != value@ by {
                    if self.values[k]@ == value@ {
                        assert(holds_row(self.order@, k));
                        let j = choose|j: int|
                            0 <= j < self.order.len() && #[trigger] self.order[j] == k;
                        if j < at {
                            assert(self.values[self.order[j] as int]@ < value@);
                        } else if j > at {
                            assert(row_before(
                                self.values@,
                                self.order[at as int] as int,
                                self.order[j] as int,
                            ));
                        }
                    }
                }
            }
            Some(row)
        } else {
            proof {
                assert forall|k: int| 0 <= k < self.values.len() implies (
                #[trigger] self.values[k])@ != value@ by {
                    if self.values[k]@ == value@ {
                        assert(holds_row(self.order@, k));
                        let j = choose|j: int|
                            0 <= j < self.order.len() && #[trigger] self.order[j] == k;
                        if j < at {
                            assert(self.values[self.order[j] as int]@ < value@);
                        } else {
                            assert(self.values[self.order[j] as int]@ >= value@);
                            if j > at {
                                assert(row_before(
                                    self.values@,
                                    self.order[at as int] as int,
                                    self.order[j] as int,
                                ));
                            }
                        }
                    }
                }
            }
            None
        }
    }
}

} // verus!
