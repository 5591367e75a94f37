//! The fast cosine transform: the forward transform and its inverse, each a
//! butterfly network that halves the block until two samples are left.

use crate::sample::{arithmetic_is_exact, arithmetic_is_total, division_is_total, Reals, Sample};
use core::ops::Div;
use vstd::arithmetic::power2::{
    is_pow2, lemma2_to64, lemma_pow2_pos, lemma_pow2_strictly_increases, lemma_pow2_unfold, pow2,
};
use vstd::prelude::*;
use vstd::std_specs::ops::{AddSpec, DivSpec, MulSpec, SubSpec};

verus! {

/// The sums of the samples that mirror each other.
pub open spec fn sums<T: Sample>(x: Seq<T>) -> Seq<T> {
    Seq::new((x.len() / 2) as nat, |i: int| x[i].add_spec(x[x.len() - 1 - i]))
}

/// The differences of the samples that mirror each other, each times the
/// coefficient at its place.
pub open spec fn differences<T: Sample>(x: Seq<T>, table: Seq<T>) -> Seq<T> {
    Seq::new(
        (x.len() / 2) as nat,
        |i: int| x[i].sub_spec(x[x.len() - 1 - i]).mul_spec(table[i]),
    )
}

/// The samples of `even` at the even places; at the odd places the sums of
/// neighbours in `odd`, but for the last, which is the last of `odd`.
pub open spec fn interleaved<T: Sample>(even: Seq<T>, odd: Seq<T>) -> Seq<T> {
    Seq::new(
        even.len() + odd.len(),
        |k: int|
            if k % 2 == 0 {
                even[k / 2]
            } else if k / 2 + 1 < odd.len() {
                odd[k / 2].add_spec(odd[k / 2 + 1])
            } else {
                odd[k / 2]
            },
    )
}

/// The forward butterfly network on `x`, with the coefficients of `tables`
/// from `depth` on: the sums and the weighted differences of `x` go through
/// the network one level deeper, and what comes out is interleaved.
pub open spec fn forward<T: Sample>(x: Seq<T>, tables: Seq<Seq<T>>, depth: nat) -> Seq<T>
    decreases x.len(),
{
    if x.len() < 2 {
        x
    } else {
        interleaved(
            forward(sums(x), tables, depth + 1),
            forward(differences(x, tables[depth as int]), tables, depth + 1),
        )
    }
}

/// What the forward network leaves in its scratch space: the two halves
/// before they are interleaved.
pub open spec fn forward_scratch<T: Sample>(x: Seq<T>, tables: Seq<Seq<T>>, depth: nat) -> Seq<T> {
    forward(sums(x), tables, depth + 1) + forward(
        differences(x, tables[depth as int]),
        tables,
        depth + 1,
    )
}

/// The samples at the even places.
pub open spec fn evens<T: Sample>(x: Seq<T>) -> Seq<T> {
    Seq::new((x.len() / 2) as nat, |i: int| x[2 * i])
}

/// The sums of the samples at odd places that are neighbours, with the first
/// of them alone at the front.
pub open spec fn neighbours<T: Sample>(x: Seq<T>) -> Seq<T> {
    Seq::new(
        (x.len() / 2) as nat,
        |i: int|
            if i == 0 {
                x[1]
            } else {
                x[2 * i - 1].add_spec(x[2 * i + 1])
            },
    )
}

/// Sample `i` of the first half is `first[i]` plus `second[i]` times the
/// coefficient at `i`; the sample that mirrors it is their difference.
pub open spec fn mirrored<T: Sample>(first: Seq<T>, second: Seq<T>, table: Seq<T>) -> Seq<T> {
    Seq::new(
        first.len() + second.len(),
        |k: int|
            if k < first.len() {
                first[k].add_spec(second[k].mul_spec(table[k]))
            } else {
                let i = first.len() + second.len() - 1 - k;
                first[i].sub_spec(second[i].mul_spec(table[i]))
            },
    )
}

/// The inverse butterfly network on `x`, with the coefficients of `tables`
/// from `depth` on: the samples at the even places and the sums of
/// neighbours at the odd places go through the network one level deeper, and
/// what comes out is mirrored.
pub open spec fn inverse<T: Sample>(x: Seq<T>, tables: Seq<Seq<T>>, depth: nat) -> Seq<T>
    decreases x.len(),
{
    if x.len() < 2 {
        x
    } else {
        mirrored(
            inverse(evens(x), tables, depth + 1),
            inverse(neighbours(x), tables, depth + 1),
            tables[depth as int],
        )
    }
}

/// What the inverse network leaves in its scratch space: the two halves
/// before they are mirrored.
pub open spec fn inverse_scratch<T: Sample>(x: Seq<T>, tables: Seq<Seq<T>>, depth: nat) -> Seq<T> {
    inverse(evens(x), tables, depth + 1) + inverse(neighbours(x), tables, depth + 1)
}

/// Both networks keep the number of samples, where it is a power of two.
pub proof fn lemma_networks_keep_length<T: Sample>(x: Seq<T>, tables: Seq<Seq<T>>, depth: nat)
    requires
        is_pow2(x.len() as int),
    ensures
        forward(x, tables, depth).len() == x.len(),
        inverse(x, tables, depth).len() == x.len(),
    decreases x.len(),
{
    reveal(is_pow2);
    if x.len() >= 2 {
        lemma_networks_keep_length(sums(x), tables, depth + 1);
        lemma_networks_keep_length(differences(x, tables[depth as int]), tables, depth + 1);
        lemma_networks_keep_length(evens(x), tables, depth + 1);
        lemma_networks_keep_length(neighbours(x), tables, depth + 1);
    }
}

/// The forward transform: the network, then the first sample halved and
/// every sample scaled by `multiplier`.
pub open spec fn scaled<T: Sample>(
    x: Seq<T>,
    tables: Seq<Seq<T>>,
    half: T,
    multiplier: T,
) -> Seq<T> {
    let network = forward(x, tables, 0);
    Seq::new(
        x.len(),
        |k: int|
            if k == 0 {
                network[0].mul_spec(half).mul_spec(multiplier)
            } else {
                network[k].mul_spec(multiplier)
            },
    )
}

/// `value` is the coefficient at place `i` of a table of `size`
/// coefficients, as `R` computes it: one half over the cosine of `i` and a
/// half, times pi, over `size` times two.
pub open spec fn is_half_secant<T: Sample + Div<Output = T>, R: Reals<T>>(
    i: usize,
    size: usize,
    value: T,
) -> bool {
    exists|place: T, half: T, pi: T, length: T, two: T, angle: T, top: T, cosine: T|
        {
            &&& #[trigger] call_ensures(R::from_index, (i,), place)
            &&& #[trigger] call_ensures(R::half, (), half)
            &&& #[trigger] call_ensures(R::pi, (), pi)
            &&& #[trigger] call_ensures(R::from_index, (size,), length)
            &&& #[trigger] call_ensures(R::from_index, (2usize,), two)
            &&& arithmetic_is_exact::<T>() && T::obeys_div_spec() ==> angle == place.add_spec(
                half,
            ).mul_spec(pi).div_spec(length.mul_spec(two))
            &&& #[trigger] call_ensures(R::half, (), top)
            &&& #[trigger] call_ensures(R::cos, (angle,), cosine)
            &&& T::obeys_div_spec() ==> value == top.div_spec(cosine)
        }
}

/// `table` holds the coefficients of a level, as `R` computes them.
pub open spec fn are_half_secants<T: Sample + Div<Output = T>, R: Reals<T>>(table: Seq<T>) -> bool {
    forall|i: int|
        0 <= i < table.len() ==> is_half_secant::<T, R>(
            i as usize,
            table.len() as usize,
            #[trigger] table[i],
        )
}

/// The table of `size` coefficients for a level of twice as many samples.
fn secant_table<T: Sample + Div<Output = T>, R: Reals<T>>(size: usize) -> (table: Vec<T>)
    requires
        arithmetic_is_total::<T>(),
        division_is_total::<T>(),
    ensures
        table@.len() == size,
        are_half_secants::<T, R>(table@),
{
    let mut table: Vec<T> = Vec::new();
    let mut i: usize = 0;
    while i < size
        invariant
            arithmetic_is_total::<T>(),
            division_is_total::<T>(),
            i <= size,
            table@.len() == i,
            forall|j: int|
                0 <= j < i ==> is_half_secant::<T, R>(j as usize, size, #[trigger] table@[j]),
        decreases size - i,
    {
        let place: T = R::from_index(i);
        let half: T = R::half();
        let pi: T = R::pi();
        let length: T = R::from_index(size);
        let two: T = R::from_index(2);
        let angle: T = (place + half) * pi / (length * two);
        let top: T = R::half();
        let cosine: T = R::cos(angle);
        let value: T = top / cosine;
        proof {
            assert(call_ensures(R::from_index, (i,), place));
            assert(call_ensures(R::half, (), half));
            assert(call_ensures(R::pi, (), pi));
            assert(call_ensures(R::from_index, (size,), length));
            assert(call_ensures(R::from_index, (2usize,), two));
            assert(call_ensures(R::half, (), top));
            assert(call_ensures(R::cos, (angle,), cosine));
            assert(is_half_secant::<T, R>(i, size, value));
        }
        let ghost earlier = table@;
        table.push(value);
        assert forall|j: int| 0 <= j < i + 1 implies is_half_secant::<T, R>(
            j as usize,
            size,
            #[trigger] table@[j],
        ) by {
            if j < i {
                assert(table@[j] == earlier[j]);
            }
        }
        i += 1;
    }
    table
}

/// A cosine transform of one length, a power of two: the forward transform
/// and its inverse, with the coefficients they use.
pub struct DCT<T> {
    constants: Vec<Vec<T>>,
    multiplier: T,
    half: T,
}

impl<T: Sample> DCT<T> {
    /// The coefficient tables, one for each level of the network.
    pub closed spec fn tables(&self) -> Seq<Seq<T>> {
        Seq::new(self.constants@.len(), |d: int| self.constants@[d]@)
    }

    /// The factor that the forward transform scales every sample by.
    pub closed spec fn multiplier(&self) -> T {
        self.multiplier
    }

    /// The factor that the forward transform scales its first sample by.
    pub closed spec fn half(&self) -> T {
        self.half
    }

    /// The number of samples that the transform takes.
    pub closed spec fn size(&self) -> nat {
        pow2(self.constants@.len())
    }

    /// There is a table for each level, and the table of a level has half as
    /// many coefficients as the level has samples.
    pub closed spec fn wf(&self) -> bool {
        &&& self.constants@.len() >= 1
        &&& forall|d: int|
            0 <= d < self.constants@.len() ==> (#[trigger] self.constants@[d])@.len() == pow2(
                (self.constants@.len() - 1 - d) as nat,
            )
    }

    /// The coefficients are what `R` computes: every table holds the
    /// coefficients of its level, the factor for the first sample is `R`'s
    /// half, and the multiplier is `R`'s half raised by `R` to one less than
    /// the number of levels.
    pub open spec fn built<R: Reals<T>>(&self) -> bool where T: Div<Output = T> {
        &&& forall|d: int|
            0 <= d < self.tables().len() ==> are_half_secants::<T, R>(#[trigger] self.tables()[d])
        &&& call_ensures(R::half, (), self.half())
        &&& exists|half: T|
            {
                &&& #[trigger] call_ensures(R::half, (), half)
                &&& call_ensures(
                    R::powi,
                    (half, (self.tables().len() - 1) as i32),
                    self.multiplier(),
                )
            }
    }

    /// The inverse transform undoes the forward transform. Whether it does
    /// rests on the coefficients and on the arithmetic of the sample type.
    pub open spec fn round_trips(&self) -> bool {
        forall|x: Seq<T>|
            x.len() == self.size() ==> inverse(
                #[trigger] scaled(x, self.tables(), self.half(), self.multiplier()),
                self.tables(),
                0,
            ) == x
    }

    /// What follows from `wf` for the views.
    pub proof fn lemma_wf(&self)
        requires
            self.wf(),
        ensures
            self.size() >= 2,
            is_pow2(self.size() as int),
            self.tables().len() >= 1,
            self.size() == pow2(self.tables().len()),
            forall|d: int|
                0 <= d < self.tables().len() ==> (#[trigger] self.tables()[d]).len() == pow2(
                    (self.tables().len() - 1 - d) as nat,
                ),
    {
        let levels = self.constants@.len();
        lemma_pow2_unfold(levels);
        vstd::arithmetic::power2::lemma_pow2_pos((levels - 1) as nat);
        vstd::arithmetic::power2::lemma_pow2(levels);
        vstd::arithmetic::power2::is_pow2_equiv(self.size() as int);
        assert(vstd::arithmetic::power2::is_pow2_exists(self.size() as int));
    }

    /// Makes the transform for blocks of `block_size` samples, a power of two
    /// and at least two.
    ///
    /// The table of a level with `2 * size` samples holds, for each `i` below
    /// `size`, one half over the cosine of `(i + 1/2) * pi / (2 * size)`, and
    /// the multiplier is one half raised to one less than the number of
    /// levels, each as the sample type computes it.
    pub fn new<R: Reals<T>>(block_size: usize) -> (dct: Self) where T: Div<Output = T>
        requires
            block_size >= 2,
            is_pow2(block_size as int),
            arithmetic_is_total::<T>(),
            division_is_total::<T>(),
        ensures
            dct.wf(),
            dct.size() == block_size,
            dct.built::<R>(),
    {
        let mut size: usize = block_size;
        let mut constants: Vec<Vec<T>> = Vec::new();
        proof {
            lemma2_to64();
            assert(size * pow2(0) == block_size) by (nonlinear_arith)
                requires
                    size == block_size,
                    pow2(0) == 1,
            ;
        }
        while size >= 2
            invariant
                arithmetic_is_total::<T>(),
                division_is_total::<T>(),
                size >= 1,
                is_pow2(size as int),
                size * pow2(constants@.len()) == block_size,
                forall|d: int|
                    0 <= d < constants@.len() ==> (#[trigger] constants@[d])@.len() == size * pow2(
                        (constants@.len() - 1 - d) as nat,
                    ),
                forall|d: int|
                    0 <= d < constants@.len() ==> are_half_secants::<T, R>(
                        (#[trigger] constants@[d])@,
                    ),
            decreases size,
        {
            let ghost before = size;
            let ghost levels = constants@.len();
            let ghost earlier = constants@;
            proof {
                reveal(is_pow2);
            }
            size = size / 2;
            constants.push(secant_table::<T, R>(size));
            proof {
                assert forall|d: int| 0 <= d < constants@.len() implies are_half_secants::<T, R>(
                    (#[trigger] constants@[d])@,
                ) by {
                    if d < levels {
                        assert(constants@[d] == earlier[d]);
                    }
                }
                lemma_pow2_unfold(levels + 1);
                assert(size * pow2(levels + 1) == block_size) by (nonlinear_arith)
                    requires
                        before == 2 * size,
                        before * pow2(levels) == block_size,
                        pow2(levels + 1) == 2 * pow2(levels),
                ;
                assert forall|d: int| 0 <= d < constants@.len() implies (#[trigger] constants@[d])@.len()
                    == size * pow2((constants@.len() - 1 - d) as nat) by {
                    if d < levels {
                        let e = (levels - 1 - d) as nat;
                        assert(constants@[d] == earlier[d]);
                        lemma_pow2_unfold(e + 1);
                        assert(size * pow2(e + 1) == before * pow2(e)) by (nonlinear_arith)
                            requires
                                before == 2 * size,
                                pow2(e + 1) == 2 * pow2(e),
                        ;
                    } else {
                        lemma2_to64();
                        assert(size * pow2(0) == size) by (nonlinear_arith)
                            requires
                                pow2(0) == 1,
                        ;
                    }
                }
            }
        }
        let levels: usize = constants.len();
        proof {
            reveal(is_pow2);
            assert(size == 1);
            lemma2_to64();
            if levels >= 64 {
                if levels > 64 {
                    lemma_pow2_strictly_increases(64, levels as nat);
                }
                assert(false);
            }
            assert(size * pow2(levels as nat) == pow2(levels as nat)) by (nonlinear_arith)
                requires
                    size == 1,
            ;
        }
        let base: T = R::half();
        let multiplier: T = R::powi(base, levels as i32 - 1);
        let dct = DCT { constants, multiplier, half: R::half() };
        proof {
            assert(call_ensures(R::half, (), base));
            assert(call_ensures(R::powi, (base, (dct.tables().len() - 1) as i32), dct.multiplier()));
            assert forall|d: int| 0 <= d < dct.tables().len() implies are_half_secants::<T, R>(
                #[trigger] dct.tables()[d],
            ) by {
                assert(dct.tables()[d] == dct.constants@[d]@);
            }
        }
        dct
    }

    /// The forward transform of `data`, in place, with `temp` as scratch
    /// space: the butterfly network, then the first sample halved and every
    /// sample scaled.
    pub fn dct(&self, data: &mut [T], temp: &mut [T])
        requires
            self.wf(),
            arithmetic_is_total::<T>(),
            old(data)@.len() == self.size(),
            old(temp)@.len() >= old(data)@.len(),
        ensures
            final(data)@.len() == old(data)@.len(),
            final(temp)@.len() == old(temp)@.len(),
            final(temp)@.skip(old(data)@.len() as int) == old(temp)@.skip(old(data)@.len() as int),
            arithmetic_is_exact::<T>() ==> final(data)@ == scaled(
                old(data)@,
                self.tables(),
                self.half(),
                self.multiplier(),
            ),
            arithmetic_is_exact::<T>() ==> final(temp)@.take(old(data)@.len() as int)
                == forward_scratch(old(data)@, self.tables(), 0),
    {
        let len: usize = data.len();
        proof {
            self.lemma_wf();
        }
        {
            let (scratch, _rest) = temp.split_at_mut(len);
            self.forward_dct(data, scratch, 0);
        }
        assert(temp@.skip(len as int) =~= old(temp)@.skip(len as int));
        proof {
            if arithmetic_is_exact::<T>() {
                assert(temp@.take(len as int) =~= forward_scratch(old(data)@, self.tables(), 0));
            }
        }
        let ghost network = data@;
        data[0] = data[0] * self.half;
        let mut k: usize = 0;
        while k < len
            invariant
                arithmetic_is_total::<T>(),
                k <= len,
                len == data@.len(),
                len == network.len(),
                len >= 2,
                arithmetic_is_exact::<T>() ==> forall|j: int|
                    0 <= j < k ==> data@[j] == (if j == 0 {
                        network[0].mul_spec(self.half).mul_spec(self.multiplier)
                    } else {
                        network[j].mul_spec(self.multiplier)
                    }),
                arithmetic_is_exact::<T>() ==> forall|j: int|
                    k <= j < len ==> data@[j] == (if j == 0 {
                        network[0].mul_spec(self.half)
                    } else {
                        network[j]
                    }),
            decreases len - k,
        {
            data[k] = data[k] * self.multiplier;
            k += 1;
        }
        proof {
            if arithmetic_is_exact::<T>() {
                assert(data@ =~= scaled(old(data)@, self.tables(), self.half(), self.multiplier()));
            }
        }
    }

    /// The inverse transform of `data`, in place, with `temp` as scratch
    /// space: the inverse butterfly network.
    pub fn idct(&self, data: &mut [T], temp: &mut [T])
        requires
            self.wf(),
            arithmetic_is_total::<T>(),
            old(data)@.len() == self.size(),
            old(temp)@.len() >= old(data)@.len(),
        ensures
            final(data)@.len() == old(data)@.len(),
            final(temp)@.len() == old(temp)@.len(),
            final(temp)@.skip(old(data)@.len() as int) == old(temp)@.skip(old(data)@.len() as int),
            arithmetic_is_exact::<T>() ==> final(data)@ == inverse(old(data)@, self.tables(), 0),
            arithmetic_is_exact::<T>() ==> final(temp)@.take(old(data)@.len() as int)
                == inverse_scratch(old(data)@, self.tables(), 0),
    {
        let len: usize = data.len();
        proof {
            self.lemma_wf();
        }
        {
            let (scratch, _rest) = temp.split_at_mut(len);
            self.inverse_dct(data, scratch, 0);
        }
        assert(temp@.skip(len as int) =~= old(temp)@.skip(len as int));
        proof {
            if arithmetic_is_exact::<T>() {
                assert(temp@.take(len as int) =~= inverse_scratch(old(data)@, self.tables(), 0));
            }
        }
    }

    /// One level of the forward network and, through itself, the levels below.
    #[verifier::spinoff_prover]
    fn forward_dct(&self, data: &mut [T], temp: &mut [T], depth: usize)
        requires
            self.wf(),
            arithmetic_is_total::<T>(),
            depth < self.constants@.len(),
            old(data)@.len() == pow2((self.constants@.len() - depth) as nat),
            old(temp)@.len() == old(data)@.len(),
        ensures
            final(data)@.len() == old(data)@.len(),
            final(temp)@.len() == old(temp)@.len(),
            arithmetic_is_exact::<T>() ==> final(data)@ == forward(
                old(data)@,
                self.tables(),
                depth as nat,
            ),
            arithmetic_is_exact::<T>() ==> final(temp)@ == forward_scratch(
                old(data)@,
                self.tables(),
                depth as nat,
            ),
        decreases old(data)@.len(),
    {
        let len: usize = data.len();
        let half_len: usize = len / 2;
        let ghost levels = (self.constants@.len() - depth) as nat;
        let ghost table = self.constants@[depth as int]@;
        let ghost input = data@;
        proof {
            lemma2_to64();
            lemma_pow2_unfold(levels);
            lemma_pow2_pos((levels - 1) as nat);
            assert(depth < self.constants.len() <= usize::MAX);
            assert(table.len() == half_len);
            assert(self.tables()[depth as int] == table);
        }
        let mut i: usize = 0;
        while i < half_len
            invariant
                arithmetic_is_total::<T>(),
                i <= half_len,
                len == 2 * half_len,
                len == data@.len(),
                len == temp@.len(),
                depth < self.constants@.len(),
                table == self.constants@[depth as int]@,
                table.len() == half_len,
                data@ == input,
                arithmetic_is_exact::<T>() ==> forall|j: int|
                    0 <= j < i ==> temp@[j] == input[j].add_spec(input[len - 1 - j]),
                arithmetic_is_exact::<T>() ==> forall|j: int|
                    half_len <= j < half_len + i ==> temp@[j] == input[j - half_len].sub_spec(
                        input[len - 1 - (j - half_len)],
                    ).mul_spec(table[j - half_len]),
            decreases half_len - i,
        {
            let x: T = data[i];
            let y: T = data[len - i - 1];
            temp[i] = x + y;
            temp[i + half_len] = (x - y) * self.constants[depth][i];
            i += 1;
        }
        let ghost added = sums(input);
        let ghost weighted = differences(input, self.tables()[depth as int]);
        proof {
            if arithmetic_is_exact::<T>() {
                assert(temp@.subrange(0, half_len as int) =~= added);
                assert(temp@.subrange(half_len as int, len as int) =~= weighted);
            }
        }
        if len != 2 {
            proof {
                lemma_pow2_unfold((levels - 1) as nat);
            }
            let (low, high) = temp.split_at_mut(half_len);
            let (scratch, _rest) = data.split_at_mut(half_len);
            self.forward_dct(low, scratch, depth + 1);
            self.forward_dct(high, scratch, depth + 1);
        }
        let ghost even = temp@.subrange(0, half_len as int);
        let ghost odd = temp@.subrange(half_len as int, len as int);
        proof {
            if arithmetic_is_exact::<T>() {
                assert(even == forward(added, self.tables(), (depth + 1) as nat));
                assert(odd == forward(weighted, self.tables(), (depth + 1) as nat));
                assert(temp@ =~= even + odd);
            }
        }
        let mut i: usize = 0;
        while i < half_len - 1
            invariant
                arithmetic_is_total::<T>(),
                i <= half_len - 1,
                half_len >= 1,
                len == 2 * half_len,
                len == data@.len(),
                len == temp@.len(),
                even == temp@.subrange(0, half_len as int),
                odd == temp@.subrange(half_len as int, len as int),
                arithmetic_is_exact::<T>() ==> forall|k: int|
                    0 <= k < 2 * i ==> data@[k] == (if k % 2 == 0 {
                        even[k / 2]
                    } else {
                        odd[k / 2].add_spec(odd[k / 2 + 1])
                    }),
            decreases half_len - 1 - i,
        {
            data[i * 2] = temp[i];
            data[i * 2 + 1] = temp[i + half_len] + temp[i + half_len + 1];
            proof {
                assert(temp@[i as int] == even[i as int]);
                assert(temp@[i + half_len] == odd[i as int]);
                assert(temp@[i + half_len + 1] == odd[i + 1]);
            }
            i += 1;
        }
        data[len - 2] = temp[half_len - 1];
        data[len - 1] = temp[len - 1];
        proof {
            if arithmetic_is_exact::<T>() {
                assert(temp@[half_len - 1] == even[half_len - 1]);
                assert(temp@[len - 1] == odd[half_len - 1]);
                assert(data@ =~= forward(input, self.tables(), depth as nat));
            }
        }
    }

    /// One level of the inverse network and, through itself, the levels below.
    #[verifier::spinoff_prover]
    fn inverse_dct(&self, data: &mut [T], temp: &mut [T], depth: usize)
        requires
            self.wf(),
            arithmetic_is_total::<T>(),
            depth < self.constants@.len(),
            old(data)@.len() == pow2((self.constants@.len() - depth) as nat),
            old(temp)@.len() == old(data)@.len(),
        ensures
            final(data)@.len() == old(data)@.len(),
            final(temp)@.len() == old(temp)@.len(),
            arithmetic_is_exact::<T>() ==> final(data)@ == inverse(
                old(data)@,
                self.tables(),
                depth as nat,
            ),
            arithmetic_is_exact::<T>() ==> final(temp)@ == inverse_scratch(
                old(data)@,
                self.tables(),
                depth as nat,
            ),
        decreases old(data)@.len(),
    {
        let len: usize = data.len();
        let half_len: usize = len / 2;
        let ghost levels = (self.constants@.len() - depth) as nat;
        let ghost table = self.constants@[depth as int]@;
        let ghost input = data@;
        proof {
            lemma2_to64();
            lemma_pow2_unfold(levels);
            lemma_pow2_pos((levels - 1) as nat);
            assert(depth < self.constants.len() <= usize::MAX);
            assert(table.len() == half_len);
            assert(self.tables()[depth as int] == table);
        }
        temp[0] = data[0];
        temp[half_len] = data[1];
        let mut i: usize = 1;
        while i < half_len
            invariant
                arithmetic_is_total::<T>(),
                1 <= i <= half_len,
                len == 2 * half_len,
                len == data@.len(),
                len == temp@.len(),
                data@ == input,
                temp@[0] == input[0],
                temp@[half_len as int] == input[1],
                forall|j: int| 1 <= j < i ==> temp@[j] == input[2 * j],
                arithmetic_is_exact::<T>() ==> forall|j: int|
                    half_len + 1 <= j < half_len + i ==> temp@[j] == input[2 * (j - half_len)
                        - 1].add_spec(input[2 * (j - half_len) + 1]),
            decreases half_len - i,
        {
            temp[i] = data[i * 2];
            temp[i + half_len] = data[2 * i - 1] + data[2 * i + 1];
            i += 1;
        }
        let ghost picked = evens(input);
        let ghost joined = neighbours(input);
        proof {
            if arithmetic_is_exact::<T>() {
                assert(temp@.subrange(0, half_len as int) =~= picked);
                assert(temp@.subrange(half_len as int, len as int) =~= joined);
            }
        }
        if len != 2 {
            proof {
                lemma_pow2_unfold((levels - 1) as nat);
            }
            let (low, high) = temp.split_at_mut(half_len);
            let (scratch, _rest) = data.split_at_mut(half_len);
            self.inverse_dct(low, scratch, depth + 1);
            self.inverse_dct(high, scratch, depth + 1);
        }
        let ghost first = temp@.subrange(0, half_len as int);
        let ghost second = temp@.subrange(half_len as int, len as int);
        proof {
            if arithmetic_is_exact::<T>() {
                assert(first == inverse(picked, self.tables(), (depth + 1) as nat));
                assert(second == inverse(joined, self.tables(), (depth + 1) as nat));
                assert(temp@ =~= first + second);
            }
        }
        let mut i: usize = 0;
        while i < half_len
            invariant
                arithmetic_is_total::<T>(),
                i <= half_len,
                len == 2 * half_len,
                len == data@.len(),
                len == temp@.len(),
                depth < self.constants@.len(),
                table == self.constants@[depth as int]@,
                table.len() == half_len,
                first == temp@.subrange(0, half_len as int),
                second == temp@.subrange(half_len as int, len as int),
                arithmetic_is_exact::<T>() ==> forall|k: int|
                    0 <= k < i ==> data@[k] == first[k].add_spec(second[k].mul_spec(table[k])),
                arithmetic_is_exact::<T>() ==> forall|k: int|
                    len - i <= k < len ==> data@[k] == first[len - 1 - k].sub_spec(
                        second[len - 1 - k].mul_spec(table[len - 1 - k]),
                    ),
            decreases half_len - i,
        {
            let x: T = temp[i];
            let y: T = temp[i + half_len] * self.constants[depth][i];
            proof {
                assert(temp@[i as int] == first[i as int]);
                assert(temp@[i + half_len] == second[i as int]);
            }
            data[i] = x + y;
            data[len - 1 - i] = x - y;
            i += 1;
        }
        proof {
            if arithmetic_is_exact::<T>() {
                assert(data@ =~= inverse(input, self.tables(), depth as nat));
            }
        }
    }
}

} // verus!
