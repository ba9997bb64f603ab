//! The chromosome names that survive filtering.

use vstd::prelude::*;
use crate::bytes::bytes_eq;

verus! {

/// Number of chromosome names on the allow-list.
pub const CANONICAL_COUNT: usize = 24;

/// Number of autosomes, `chr1` to `chr22`.
pub const AUTOSOME_COUNT: u8 = 22;

/// ASCII `c`.
pub const LOWER_C: u8 = 99;

/// ASCII `h`.
pub const LOWER_H: u8 = 104;

/// ASCII `r`.
pub const LOWER_R: u8 = 114;

/// ASCII `X`.
pub const UPPER_X: u8 = 88;

/// ASCII `Y`.
pub const UPPER_Y: u8 = 89;

/// ASCII `0`; the other digits follow it.
pub const DIGIT_ZERO: u8 = 48;

/// The ASCII digit for `d`, which is 0 to 9.
pub open spec fn digit(d: int) -> u8 {
    (DIGIT_ZERO + d) as u8
}

/// The name made of `chr` and the given suffix.
pub open spec fn chr(suffix: Seq<u8>) -> Seq<u8> {
    seq![LOWER_C, LOWER_H, LOWER_R] + suffix
}

/// The name of autosome `n`: `chr` and `n` in decimal, for 1 to 22.
pub open spec fn autosome(n: int) -> Seq<u8> {
    if n < 10 {
        chr(seq![digit(n)])
    } else {
        chr(seq![digit(n / 10), digit(n % 10)])
    }
}

/// The allow-list: the autosomes `chr1` to `chr22`, then `chrX` and `chrY`.
pub open spec fn canonical_names() -> Seq<Seq<u8>> {
    Seq::new(AUTOSOME_COUNT as nat, |i: int| autosome(i + 1)).push(chr(seq![UPPER_X])).push(
        chr(seq![UPPER_Y]),
    )
}

/// Whether a chromosome name is on the allow-list.
pub open spec fn is_canonical_name(name: Seq<u8>) -> bool {
    canonical_names().contains(name)
}

/// The allow-list as a value, built once and only read afterwards.
pub struct CanonicalSet {
    names: Vec<Vec<u8>>,
}

impl CanonicalSet {
    /// The names held are exactly those of `canonical_names`, in its order.
    pub closed spec fn wf(&self) -> bool {
        &&& self.names@.len() == canonical_names().len()
        &&& forall|i: int|
            0 <= i < self.names@.len() ==> #[trigger] self.names@[i]@ == canonical_names()[i]
    }

    fn named(suffix: &Vec<u8>) -> (name: Vec<u8>)
        ensures
            name@ == chr(suffix@),
    {
        let mut name: Vec<u8> = vec![LOWER_C, LOWER_H, LOWER_R];
        let mut i: usize = 0;
        while i < suffix.len()
            invariant
                i <= suffix@.len(),
                name@ == chr(suffix@.take(i as int)),
            decreases suffix@.len() - i,
        {
            name.push(suffix[i]);
            proof {
                assert(name@ =~= chr(suffix@.take(i + 1)));
            }
            i += 1;
        }
        proof {
            assert(suffix@.take(i as int) =~= suffix@);
        }
        name
    }

    /// Builds the allow-list.
    pub fn new() -> (set: CanonicalSet)
        ensures
            set.wf(),
    {
        let mut names: Vec<Vec<u8>> = Vec::new();
        let mut n: u8 = 1;
        while n <= AUTOSOME_COUNT
            invariant
                1 <= n <= AUTOSOME_COUNT + 1,
                names@.len() == n - 1,
                forall|i: int| 0 <= i < names@.len() ==> #[trigger] names@[i]@ == autosome(i + 1),
            decreases AUTOSOME_COUNT + 1 - n,
        {
            let suffix: Vec<u8> = if n < 10 {
                vec![DIGIT_ZERO + n]
            } else {
                vec![DIGIT_ZERO + n / 10, DIGIT_ZERO + n % 10]
            };
            proof {
                if n < 10 {
                    assert(suffix@ =~= seq![digit(n as int)]);
                } else {
                    assert(suffix@ =~= seq![digit(n as int / 10), digit(n as int % 10)]);
                }
            }
            names.push(Self::named(&suffix));
            n += 1;
        }
        let x: Vec<u8> = vec![UPPER_X];
        let y: Vec<u8> = vec![UPPER_Y];
        proof {
            assert(x@ =~= seq![UPPER_X]);
            assert(y@ =~= seq![UPPER_Y]);
        }
        names.push(Self::named(&x));
        names.push(Self::named(&y));
        CanonicalSet { names }
    }

    /// Number of names on the list.
    pub fn len(&self) -> (n: usize)
        requires
            self.wf(),
        ensures
            n == CANONICAL_COUNT,
    {
        self.names.len()
    }

    /// Membership test: the only question the filter asks of the list.
    pub fn contains(&self, name: &[u8]) -> (found: bool)
        requires
            self.wf(),
        ensures
            found == is_canonical_name(name@),
    {
        let mut i: usize = 0;
        while i < self.names.len()
            invariant
                self.wf(),
                i <= self.names@.len(),
                forall|j: int| 0 <= j < i ==> canonical_names()[j] != name@,
            decreases self.names@.len() - i,
        {
            if bytes_eq(self.names[i].as_slice(), name) {
                proof {
                    assert(canonical_names()[i as int] == name@);
                }
                return true;
            }
            i += 1;
        }
        false
    }
}

} // verus!
