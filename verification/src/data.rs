use vstd::prelude::*;

verus! {

/// What the selection needs of a record: a value by which records are
/// ordered, and the weight with which the record counts.
///
/// The two spec functions are the record's mathematical content; the two
/// executable accessors must return exactly that content, which is proved of
/// every implementation. `Record` is the plain one.
pub trait Data {
    /// The value of the record.
    spec fn value(&self) -> int;

    /// The weight of the record.
    spec fn weight(&self) -> nat;

    fn get_value(&self) -> (v: i64)
        ensures
            v == self.value(),
    ;

    fn get_weight(&self) -> (w: u64)
        ensures
            w == self.weight(),
    ;
}

/// A plain record: a value and its weight.
#[derive(Clone, Copy, Debug, PartialEq, Eq, Structural)]
pub struct Record {
    pub value: i64,
    pub weight: u64,
}

impl Data for Record {
    open spec fn value(&self) -> int {
        self.value as int
    }

    open spec fn weight(&self) -> nat {
        self.weight as nat
    }

    fn get_value(&self) -> (v: i64) {
        self.value
    }

    fn get_weight(&self) -> (w: u64) {
        self.weight
    }
}

/// A weighted median: the number halfway between `lower` and `upper`.
///
/// The two fields are equal when the median is a value of the input. They
/// differ when the cumulative weight reaches exactly half of the total at
/// `lower`: the median then lies midway between `lower` and the next value.
#[derive(Clone, Copy, Debug, PartialEq, Eq, Structural)]
pub struct Median {
    pub lower: i64,
    pub upper: i64,
}

impl Median {
    /// Twice the median, which is always an integer.
    pub open spec fn twice(self) -> int {
        self.lower + self.upper
    }

    /// The median that is the value `v` itself.
    pub fn at(v: i64) -> (m: Median)
        ensures
            m == (Median { lower: v, upper: v }),
    {
        Median { lower: v, upper: v }
    }

    /// The median halfway between `a` and `b`, given in either order.
    pub fn between(a: i64, b: i64) -> (m: Median)
        ensures
            m.lower == if a <= b { a } else { b },
            m.upper == if a <= b { b } else { a },
    {
        if a <= b {
            Median { lower: a, upper: b }
        } else {
            Median { lower: b, upper: a }
        }
    }
}

/// Why no median was computed.
#[derive(Clone, Copy, Debug, PartialEq, Eq, Structural)]
pub enum MedianError {
    /// The input holds no record.
    EmptyInput,
    /// The weights sum to zero, so no value splits the weight in halves.
    NonPositiveTotalWeight,
}

} // verus!
