//! Ordering of unsigned floats: the unsigned order of their raw bits.
use vstd::prelude::*;
use core::cmp::Ordering;
use vstd::std_specs::cmp::PartialOrdSpecImpl;
use vstd::std_specs::cmp::PartialOrdSpec;
use crate::uf8::{Uf8E4M4, Uf8E5M3};
use crate::uf16::{Uf16, Uf16E6M10};
use crate::uf32::Uf32E8M24;
use crate::uf64::Uf64E11M52;

verus! {

impl PartialOrd for Uf8E4M4 {
    fn partial_cmp(&self, other: &Self) -> (r: Option<Ordering>) {
        let a = self.to_bits();
        let b = other.to_bits();
        if a < b {
            Some(Ordering::Less)
        } else if a == b {
            Some(Ordering::Equal)
        } else {
            Some(Ordering::Greater)
        }
    }
}

impl PartialOrdSpecImpl for Uf8E4M4 {
    open spec fn obeys_partial_cmp_spec() -> bool {
        true
    }

    open spec fn partial_cmp_spec(&self, other: &Self) -> Option<Ordering> {
        if self@ < other@ {
            Some(Ordering::Less)
        } else if self@ == other@ {
            Some(Ordering::Equal)
        } else {
            Some(Ordering::Greater)
        }
    }
}

impl PartialOrd for Uf8E5M3 {
    fn partial_cmp(&self, other: &Self) -> (r: Option<Ordering>) {
        let a = self.to_bits();
        let b = other.to_bits();
        if a < b {
            Some(Ordering::Less)
        } else if a == b {
            Some(Ordering::Equal)
        } else {
            Some(Ordering::Greater)
        }
    }
}

impl PartialOrdSpecImpl for Uf8E5M3 {
    open spec fn obeys_partial_cmp_spec() -> bool {
        true
    }

    open spec fn partial_cmp_spec(&self, other: &Self) -> Option<Ordering> {
        if self@ < other@ {
            Some(Ordering::Less)
        } else if self@ == other@ {
            Some(Ordering::Equal)
        } else {
            Some(Ordering::Greater)
        }
    }
}

impl PartialOrd for Uf16 {
    fn partial_cmp(&self, other: &Self) -> (r: Option<Ordering>) {
        let a = self.to_bits();
        let b = other.to_bits();
        if a < b {
            Some(Ordering::Less)
        } else if a == b {
            Some(Ordering::Equal)
        } else {
            Some(Ordering::Greater)
        }
    }
}

impl PartialOrdSpecImpl for Uf16 {
    open spec fn obeys_partial_cmp_spec() -> bool {
        true
    }

    open spec fn partial_cmp_spec(&self, other: &Self) -> Option<Ordering> {
        if self@ < other@ {
            Some(Ordering::Less)
        } else if self@ == other@ {
            Some(Ordering::Equal)
        } else {
            Some(Ordering::Greater)
        }
    }
}

impl PartialOrd for Uf16E6M10 {
    fn partial_cmp(&self, other: &Self) -> (r: Option<Ordering>) {
        let a = self.to_bits();
        let b = other.to_bits();
        if a < b {
            Some(Ordering::Less)
        } else if a == b {
            Some(Ordering::Equal)
        } else {
            Some(Ordering::Greater)
        }
    }
}

impl PartialOrdSpecImpl for Uf16E6M10 {
    open spec fn obeys_partial_cmp_spec() -> bool {
        true
    }

    open spec fn partial_cmp_spec(&self, other: &Self) -> Option<Ordering> {
        if self@ < other@ {
            Some(Ordering::Less)
        } else if self@ == other@ {
            Some(Ordering::Equal)
        } else {
            Some(Ordering::Greater)
        }
    }
}

impl PartialOrd for Uf32E8M24 {
    fn partial_cmp(&self, other: &Self) -> (r: Option<Ordering>) {
        let a = self.to_bits();
        let b = other.to_bits();
        if a < b {
            Some(Ordering::Less)
        } else if a == b {
            Some(Ordering::Equal)
        } else {
            Some(Ordering::Greater)
        }
    }
}

impl PartialOrdSpecImpl for Uf32E8M24 {
    open spec fn obeys_partial_cmp_spec() -> bool {
        true
    }

    open spec fn partial_cmp_spec(&self, other: &Self) -> Option<Ordering> {
        if self@ < other@ {
            Some(Ordering::Less)
        } else if self@ == other@ {
            Some(Ordering::Equal)
        } else {
            Some(Ordering::Greater)
        }
    }
}

impl PartialOrd for Uf64E11M52 {
    fn partial_cmp(&self, other: &Self) -> (r: Option<Ordering>) {
        let a = self.to_bits();
        let b = other.to_bits();
        if a < b {
            Some(Ordering::Less)
        } else if a == b {
            Some(Ordering::Equal)
        } else {
            Some(Ordering::Greater)
        }
    }
}

impl PartialOrdSpecImpl for Uf64E11M52 {
    open spec fn obeys_partial_cmp_spec() -> bool {
        true
    }

    open spec fn partial_cmp_spec(&self, other: &Self) -> Option<Ordering> {
        if self@ < other@ {
            Some(Ordering::Less)
        } else if self@ == other@ {
            Some(Ordering::Equal)
        } else {
            Some(Ordering::Greater)
        }
    }
}

impl Uf8E4M4 {
    /// Values compare as their raw bits do: a pattern compares equal exactly to
    /// itself, less than every higher pattern and greater than every lower one.
    pub proof fn lemma_order_is_bit_order(x: Self, y: Self)
        ensures
            (PartialOrdSpec::partial_cmp_spec(&x, &y) == Some(Ordering::Equal)) <==> x@ == y@,
            (PartialOrdSpec::partial_cmp_spec(&x, &y) == Some(Ordering::Less)) <==> x@ < y@,
            (PartialOrdSpec::partial_cmp_spec(&x, &y) == Some(Ordering::Greater)) <==> x@ > y@,
    {
    }
}

impl Uf8E5M3 {
    /// Values compare as their raw bits do: a pattern compares equal exactly to
    /// itself, less than every higher pattern and greater than every lower one.
    pub proof fn lemma_order_is_bit_order(x: Self, y: Self)
        ensures
            (PartialOrdSpec::partial_cmp_spec(&x, &y) == Some(Ordering::Equal)) <==> x@ == y@,
            (PartialOrdSpec::partial_cmp_spec(&x, &y) == Some(Ordering::Less)) <==> x@ < y@,
            (PartialOrdSpec::partial_cmp_spec(&x, &y) == Some(Ordering::Greater)) <==> x@ > y@,
    {
    }
}

impl Uf16 {
    /// Values compare as their raw bits do: a pattern compares equal exactly to
    /// itself, less than every higher pattern and greater than every lower one.
    pub proof fn lemma_order_is_bit_order(x: Self, y: Self)
        ensures
            (PartialOrdSpec::partial_cmp_spec(&x, &y) == Some(Ordering::Equal)) <==> x@ == y@,
            (PartialOrdSpec::partial_cmp_spec(&x, &y) == Some(Ordering::Less)) <==> x@ < y@,
            (PartialOrdSpec::partial_cmp_spec(&x, &y) == Some(Ordering::Greater)) <==> x@ > y@,
    {
    }
}

impl Uf16E6M10 {
    /// Values compare as their raw bits do: a pattern compares equal exactly to
    /// itself, less than every higher pattern and greater than every lower one.
    pub proof fn lemma_order_is_bit_order(x: Self, y: Self)
        ensures
            (PartialOrdSpec::partial_cmp_spec(&x, &y) == Some(Ordering::Equal)) <==> x@ == y@,
            (PartialOrdSpec::partial_cmp_spec(&x, &y) == Some(Ordering::Less)) <==> x@ < y@,
            (PartialOrdSpec::partial_cmp_spec(&x, &y) == Some(Ordering::Greater)) <==> x@ > y@,
    {
    }
}

impl Uf32E8M24 {
    /// Values compare as their raw bits do: a pattern compares equal exactly to
    /// itself, less than every higher pattern and greater than every lower one.
    pub proof fn lemma_order_is_bit_order(x: Self, y: Self)
        ensures
            (PartialOrdSpec::partial_cmp_spec(&x, &y) == Some(Ordering::Equal)) <==> x@ == y@,
            (PartialOrdSpec::partial_cmp_spec(&x, &y) == Some(Ordering::Less)) <==> x@ < y@,
            (PartialOrdSpec::partial_cmp_spec(&x, &y) == Some(Ordering::Greater)) <==> x@ > y@,
    {
    }
}

impl Uf64E11M52 {
    /// Values compare as their raw bits do: a pattern compares equal exactly to
    /// itself, less than every higher pattern and greater than every lower one.
    pub proof fn lemma_order_is_bit_order(x: Self, y: Self)
        ensures
            (PartialOrdSpec::partial_cmp_spec(&x, &y) == Some(Ordering::Equal)) <==> x@ == y@,
            (PartialOrdSpec::partial_cmp_spec(&x, &y) == Some(Ordering::Less)) <==> x@ < y@,
            (PartialOrdSpec::partial_cmp_spec(&x, &y) == Some(Ordering::Greater)) <==> x@ > y@,
    {
    }
}

} // verus!
