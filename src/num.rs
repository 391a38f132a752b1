//! Decimal numerals: the value of a run of digits and the range an `i64`
//! numeral may take.
use vstd::prelude::*;

verus! {

pub open spec fn is_digit(b: u8) -> bool {
    0x30 <= b <= 0x39
}

/// The number a run of decimal digits denotes, most significant first.
pub open spec fn decimal_value(ds: Seq<u8>) -> int
    decreases ds.len(),
{
    if ds.len() == 0 {
        0
    } else {
        decimal_value(ds.drop_last()) * 10 + (ds.last() - 0x30)
    }
}

/// The largest magnitude an `i64` numeral may denote: 2^63 after a `-`,
/// 2^63 - 1 otherwise.
pub open spec fn magnitude_bound(neg: bool) -> int {
    if neg {
        0x8000_0000_0000_0000
    } else {
        0x7fff_ffff_ffff_ffff
    }
}

pub(crate) proof fn lemma_decimal_nonneg(ds: Seq<u8>)
    requires
        forall|i: int| 0 <= i < ds.len() ==> is_digit(#[trigger] ds[i]),
    ensures
        decimal_value(ds) >= 0,
    decreases ds.len(),
{
    if ds.len() > 0 {
        lemma_decimal_nonneg(ds.drop_last());
    }
}

/// A run of digits denotes at least as much as any of its prefixes.
pub(crate) proof fn lemma_decimal_prefix(ds: Seq<u8>, j: int)
    requires
        0 <= j <= ds.len(),
        forall|i: int| 0 <= i < ds.len() ==> is_digit(#[trigger] ds[i]),
    ensures
        decimal_value(ds.subrange(0, j)) <= decimal_value(ds),
    decreases ds.len(),
{
    if j < ds.len() {
        let dl = ds.drop_last();
        assert forall|i: int| 0 <= i < dl.len() implies is_digit(#[trigger] dl[i]) by {
            assert(dl[i] == ds[i]);
        }
        lemma_decimal_prefix(dl, j);
        lemma_decimal_nonneg(dl);
        assert(dl.subrange(0, j) =~= ds.subrange(0, j));
    } else {
        assert(ds.subrange(0, j) =~= ds);
    }
}

} // verus!
