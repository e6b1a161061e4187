//! Fields in formulas: `*` scales a field and `+` adds two, on fields given by
//! value or by reference.

use std::ops::{Add, Mul};
use vstd::prelude::*;
use vstd::std_specs::ops::{AddSpecImpl, MulSpecImpl};
use crate::dijkstra_map::DijkstraMap;
use crate::field::{scale_fits, scaled, sum_fits, summed};
use crate::king_distance::same_shape;

verus! {

impl<'a> MulSpecImpl<&'a DijkstraMap> for i64 {
    open spec fn obeys_mul_spec() -> bool {
        false
    }

    open spec fn mul_req(self, rhs: &'a DijkstraMap) -> bool {
        scale_fits(rhs@, self as int)
    }

    open spec fn mul_spec(self, rhs: &'a DijkstraMap) -> DijkstraMap {
        arbitrary()
    }
}

impl<'a> Mul<&'a DijkstraMap> for i64 {
    type Output = DijkstraMap;

    fn mul(self, rhs: &'a DijkstraMap) -> (field: DijkstraMap)
        ensures
            field@ == scaled(rhs@, self as int),
            rhs.wf() ==> field.wf(),
    {
        rhs.scale(self)
    }
}

impl<'a> MulSpecImpl<i64> for &'a DijkstraMap {
    open spec fn obeys_mul_spec() -> bool {
        false
    }

    open spec fn mul_req(self, rhs: i64) -> bool {
        scale_fits(self@, rhs as int)
    }

    open spec fn mul_spec(self, rhs: i64) -> DijkstraMap {
        arbitrary()
    }
}

impl<'a> Mul<i64> for &'a DijkstraMap {
    type Output = DijkstraMap;

    fn mul(self, rhs: i64) -> (field: DijkstraMap)
        ensures
            field@ == scaled(self@, rhs as int),
            self.wf() ==> field.wf(),
    {
        self.scale(rhs)
    }
}

impl MulSpecImpl<DijkstraMap> for i64 {
    open spec fn obeys_mul_spec() -> bool {
        false
    }

    open spec fn mul_req(self, rhs: DijkstraMap) -> bool {
        scale_fits(rhs@, self as int)
    }

    open spec fn mul_spec(self, rhs: DijkstraMap) -> DijkstraMap {
        arbitrary()
    }
}

impl Mul<DijkstraMap> for i64 {
    type Output = DijkstraMap;

    fn mul(self, rhs: DijkstraMap) -> (field: DijkstraMap)
        ensures
            field@ == scaled(rhs@, self as int),
            rhs.wf() ==> field.wf(),
    {
        rhs.scale(self)
    }
}

impl MulSpecImpl<i64> for DijkstraMap {
    open spec fn obeys_mul_spec() -> bool {
        false
    }

    open spec fn mul_req(self, rhs: i64) -> bool {
        scale_fits(self@, rhs as int)
    }

    open spec fn mul_spec(self, rhs: i64) -> DijkstraMap {
        arbitrary()
    }
}

impl Mul<i64> for DijkstraMap {
    type Output = DijkstraMap;

    fn mul(self, rhs: i64) -> (field: DijkstraMap)
        ensures
            field@ == scaled(self@, rhs as int),
            self.wf() ==> field.wf(),
    {
        self.scale(rhs)
    }
}

impl<'a, 'b> AddSpecImpl<&'a DijkstraMap> for &'b DijkstraMap {
    open spec fn obeys_add_spec() -> bool {
        false
    }

    open spec fn add_req(self, rhs: &'a DijkstraMap) -> bool {
        same_shape(self@, rhs@) && sum_fits(self@, rhs@)
    }

    open spec fn add_spec(self, rhs: &'a DijkstraMap) -> DijkstraMap {
        arbitrary()
    }
}

impl<'a, 'b> Add<&'a DijkstraMap> for &'b DijkstraMap {
    type Output = DijkstraMap;

    fn add(self, rhs: &'a DijkstraMap) -> (field: DijkstraMap)
        ensures
            field@ == summed(self@, rhs@),
            self.wf() ==> field.wf(),
    {
        self.combine(rhs)
    }
}

impl<'a> AddSpecImpl<&'a DijkstraMap> for DijkstraMap {
    open spec fn obeys_add_spec() -> bool {
        false
    }

    open spec fn add_req(self, rhs: &'a DijkstraMap) -> bool {
        same_shape(self@, rhs@) && sum_fits(self@, rhs@)
    }

    open spec fn add_spec(self, rhs: &'a DijkstraMap) -> DijkstraMap {
        arbitrary()
    }
}

impl<'a> Add<&'a DijkstraMap> for DijkstraMap {
    type Output = DijkstraMap;

    fn add(self, rhs: &'a DijkstraMap) -> (field: DijkstraMap)
        ensures
            field@ == summed(self@, rhs@),
            self.wf() ==> field.wf(),
    {
        self.combine(rhs)
    }
}

impl<'a> AddSpecImpl<DijkstraMap> for &'a DijkstraMap {
    open spec fn obeys_add_spec() -> bool {
        false
    }

    open spec fn add_req(self, rhs: DijkstraMap) -> bool {
        same_shape(self@, rhs@) && sum_fits(self@, rhs@)
    }

    open spec fn add_spec(self, rhs: DijkstraMap) -> DijkstraMap {
        arbitrary()
    }
}

impl<'a> Add<DijkstraMap> for &'a DijkstraMap {
    type Output = DijkstraMap;

    fn add(self, rhs: DijkstraMap) -> (field: DijkstraMap)
        ensures
            field@ == summed(self@, rhs@),
            self.wf() ==> field.wf(),
    {
        self.combine(&rhs)
    }
}

impl AddSpecImpl<DijkstraMap> for DijkstraMap {
    open spec fn obeys_add_spec() -> bool {
        false
    }

    open spec fn add_req(self, rhs: DijkstraMap) -> bool {
        same_shape(self@, rhs@) && sum_fits(self@, rhs@)
    }

    open spec fn add_spec(self, rhs: DijkstraMap) -> DijkstraMap {
        arbitrary()
    }
}

impl Add<DijkstraMap> for DijkstraMap {
    type Output = DijkstraMap;

    fn add(self, rhs: DijkstraMap) -> (field: DijkstraMap)
        ensures
            field@ == summed(self@, rhs@),
            self.wf() ==> field.wf(),
    {
        self.combine(&rhs)
    }
}

} // verus!
