//! The integer part of the Layer I subband decoder: per-subband,
//! per-channel 4-bit allocation codes, 6-bit scale-factor codes, and the
//! raw quantized sample codes of the twelve granules, read from the
//! stream in the standard's order.  Turning a raw sample code into a
//! floating-point subband sample is left to the caller.
use vstd::prelude::*;
use vstd::arithmetic::div_mod::*;
use vstd::arithmetic::power2::*;

use crate::EndOfStream;
use crate::bitreader::BitReader;
use crate::bits::bits_value;
use crate::bits::lemma_bits_value_bound;

verus! {

/// Allocation and scale-factor tables are two channel rows of 32 subband
/// entries; entries outside the decoded range stay zero.
pub open spec fn table_shape(a: Seq<Seq<u32>>) -> bool {
    &&& a.len() == 2
    &&& a[0].len() == 32
    &&& a[1].len() == 32
}

/// The allocation code of the `i`-th (subband, channel) pair in reading
/// order: pairs are read subband-major, channel-minor.
pub open spec fn pair_code(a: Seq<Seq<u32>>, nc: int, i: int) -> u32 {
    a[i % nc][i / nc]
}

/// How many bits of scale-factor data the first `i` pairs carry: six for
/// each pair whose allocation code is nonzero, none for a muted pair.
pub open spec fn sf_bits_before(a: Seq<Seq<u32>>, nc: int, i: int) -> int
    decreases i,
{
    if i <= 0 {
        0
    } else {
        sf_bits_before(a, nc, i - 1) + if pair_code(a, nc, i - 1) == 0 {
            0int
        } else {
            6int
        }
    }
}

/// How many bits of sample data the first `i` pairs carry in one granule:
/// the allocation code of a pair is the width of its sample code, and a
/// muted pair carries none.
pub open spec fn sample_bits_before(a: Seq<Seq<u32>>, nc: int, i: int) -> int
    decreases i,
{
    if i <= 0 {
        0
    } else {
        sample_bits_before(a, nc, i - 1) + pair_code(a, nc, i - 1)
    }
}

/// How many bits of sample data all the decoded pairs together carry in
/// one granule.
pub open spec fn granule_bits(a: Seq<Seq<u32>>, nc: int, nsb: int) -> int {
    sample_bits_before(a, nc, nsb * nc)
}

/// In reading order, pair `i = sb * nc + ch` addresses channel `ch` of
/// subband `sb`.
proof fn lemma_pair_index(nc: int, sb: int, ch: int)
    requires
        1 <= nc,
        0 <= sb,
        0 <= ch < nc,
    ensures
        (sb * nc + ch) % nc == ch,
        (sb * nc + ch) / nc == sb,
{
    vstd::arithmetic::mul::lemma_mul_nonnegative(sb, nc);
    lemma_fundamental_div_mod_converse(sb * nc + ch, nc, sb, ch);
}

/// Both bit counts grow with the pair index: costs never shrink as more
/// pairs are taken in.
proof fn lemma_bit_costs_monotonic(a: Seq<Seq<u32>>, nc: int, i: int, j: int)
    requires
        i <= j,
    ensures
        sample_bits_before(a, nc, i) <= sample_bits_before(a, nc, j),
        sf_bits_before(a, nc, i) <= sf_bits_before(a, nc, j),
    decreases j - i,
{
    if i < j {
        lemma_bit_costs_monotonic(a, nc, i, j - 1);
    }
}

/// Law: a muted (subband, channel) pair — allocation code zero — adds
/// nothing to the frame's bit budget: no scale-factor bits and no sample
/// bits in any of the twelve granules.  A pair with nonzero allocation
/// code `nb` adds six scale-factor bits and exactly `nb` sample bits per
/// granule.  The decoders consume the stream at exactly these offsets.
pub proof fn lemma_pair_bit_consumption(a: Seq<Seq<u32>>, nc: int, sb: int, ch: int)
    requires
        1 <= nc <= 2,
        0 <= sb,
        0 <= ch < nc,
    ensures
        a[ch][sb] == 0 ==> {
            &&& sf_bits_before(a, nc, sb * nc + ch + 1) == sf_bits_before(a, nc, sb * nc + ch)
            &&& sample_bits_before(a, nc, sb * nc + ch + 1) == sample_bits_before(
                a,
                nc,
                sb * nc + ch,
            )
        },
        a[ch][sb] != 0 ==> {
            &&& sf_bits_before(a, nc, sb * nc + ch + 1) == sf_bits_before(a, nc, sb * nc + ch) + 6
            &&& sample_bits_before(a, nc, sb * nc + ch + 1) == sample_bits_before(
                a,
                nc,
                sb * nc + ch,
            ) + a[ch][sb]
        },
{
    lemma_pair_index(nc, sb, ch);
}

/// Reads the 4-bit allocation code of every (subband, channel) pair, in
/// subband-major order, into a full two-row table; rows and subbands
/// beyond the decoded range stay zero.
pub fn decode_bit_allocations(
    bit_reader: &mut BitReader,
    num_subbands: usize,
    num_channels: usize,
) -> (r: Result<Vec<Vec<u32>>, EndOfStream>)
    requires
        old(bit_reader).wf(),
        1 <= num_channels <= 2,
        num_subbands <= 32,
    ensures
        final(bit_reader).wf(),
        final(bit_reader).stream() == old(bit_reader).stream(),
        r is Ok <==> 4 * (num_subbands * num_channels) <= old(bit_reader).bits().len(),
        r matches Ok(a) ==> {
            &&& table_shape(a.deep_view())
            &&& final(bit_reader).bits() == old(bit_reader).bits().skip(
                4 * (num_subbands * num_channels),
            )
            &&& forall|sb: int, ch: int|
                0 <= sb < num_subbands && 0 <= ch < num_channels ==> (a.deep_view()[ch][sb] as nat)
                    == bits_value(
                    old(bit_reader).bits().subrange(
                        4 * (sb * num_channels + ch),
                        4 * (sb * num_channels + ch) + 4,
                    ),
                )
            &&& forall|sb: int, ch: int|
                0 <= sb < 32 && 0 <= ch < 2 ==> a.deep_view()[ch][sb] < 16
            &&& forall|sb: int, ch: int|
                0 <= sb < 32 && 0 <= ch < 2 && !(sb < num_subbands && ch < num_channels)
                    ==> a.deep_view()[ch][sb] == 0
        },
{
    let ghost whole = old(bit_reader).bits();
    let nc: usize = num_channels;
    let ghost mut i: int = 0;
    let mut row0: Vec<u32> = Vec::new();
    let mut row1: Vec<u32> = Vec::new();
    let mut sb: usize = 0;
    while sb < num_subbands
        invariant
            old(bit_reader).wf(),
            bit_reader.wf(),
            bit_reader.stream() == old(bit_reader).stream(),
            1 <= nc <= 2,
            num_channels == nc,
            num_subbands <= 32,
            sb <= num_subbands,
            row0.len() == sb,
            row1.len() == sb,
            whole == old(bit_reader).bits(),
            i == sb * nc,
            0 <= i,
            bit_reader.bits() == whole.skip(4 * i),
            bit_reader.bits().len() == whole.len() - 4 * i,
            forall|j: int|
                0 <= j < sb ==> (row0@[j] as nat) == bits_value(
                    whole.subrange(4 * (j * nc), 4 * (j * nc) + 4),
                ) && row0@[j] < 16,
            forall|j: int|
                0 <= j < sb ==> if nc == 2 {
                    (row1@[j] as nat) == bits_value(
                        whole.subrange(4 * (j * nc + 1), 4 * (j * nc + 1) + 4),
                    ) && row1@[j] < 16
                } else {
                    row1@[j] == 0
                },
        decreases num_subbands - sb,
    {
        let ghost before = bit_reader.bits();
        let v0: u32 = match bit_reader.read_bits(4) {
            Ok(v) => v,
            Err(e) => {
                proof {
                    vstd::arithmetic::mul::lemma_mul_inequality(
                        sb as int + 1,
                        num_subbands as int,
                        nc as int,
                    );
                    vstd::arithmetic::mul::lemma_mul_is_distributive_add_other_way(
                        nc as int,
                        sb as int,
                        1,
                    );
                    vstd::arithmetic::mul::lemma_mul_basics(nc as int);
                }
                return Err(e);
            },
        };
        proof {
            assert(before.take(4) =~= whole.subrange(4 * (sb * nc), 4 * (sb * nc) + 4));
            lemma_bits_value_bound(before.take(4));
            lemma2_to64();
            assert(bit_reader.bits() =~= whole.skip(4 * i + 4));
        }
        row0.push(v0);
        if nc == 2 {
            let ghost mid = bit_reader.bits();
            let v1: u32 = match bit_reader.read_bits(4) {
                Ok(v) => v,
                Err(e) => {
                    proof {
                        vstd::arithmetic::mul::lemma_mul_inequality(
                            sb as int + 1,
                            num_subbands as int,
                            nc as int,
                        );
                        vstd::arithmetic::mul::lemma_mul_is_distributive_add_other_way(
                            nc as int,
                            sb as int,
                            1,
                        );
                        vstd::arithmetic::mul::lemma_mul_basics(nc as int);
                    }
                    return Err(e);
                },
            };
            proof {
                assert(mid.take(4) =~= whole.subrange(4 * (sb * nc + 1), 4 * (sb * nc + 1) + 4));
                lemma_bits_value_bound(mid.take(4));
                lemma2_to64();
                assert(bit_reader.bits() =~= whole.skip(4 * (i + nc)));
            }
            row1.push(v1);
        } else {
            row1.push(0);
            proof {
                assert(bit_reader.bits() =~= whole.skip(4 * (i + nc)));
            }
        }
        proof {
            vstd::arithmetic::mul::lemma_mul_is_distributive_add_other_way(nc as int, sb as int, 1);
            vstd::arithmetic::mul::lemma_mul_basics(nc as int);
            i = i + nc as int;
        }
        sb = sb + 1;
    }
    proof {
        assert(4 * (num_subbands * num_channels) == 4 * i);
    }
    while row0.len() < 32
        invariant
            num_subbands <= row0.len() <= 32,
            row1.len() == row0.len(),
            forall|j: int| num_subbands <= j < row0.len() ==> row0@[j] == 0 && row1@[j] == 0,
            forall|j: int|
                0 <= j < num_subbands ==> (row0@[j] as nat) == bits_value(
                    whole.subrange(4 * (j * nc), 4 * (j * nc) + 4),
                ) && row0@[j] < 16,
            forall|j: int|
                0 <= j < num_subbands ==> if nc == 2 {
                    (row1@[j] as nat) == bits_value(
                        whole.subrange(4 * (j * nc + 1), 4 * (j * nc + 1) + 4),
                    ) && row1@[j] < 16
                } else {
                    row1@[j] == 0
                },
        decreases 32 - row0.len(),
    {
        row0.push(0);
        row1.push(0);
    }
    let mut table: Vec<Vec<u32>> = Vec::new();
    table.push(row0);
    table.push(row1);
    proof {
        assert(table.deep_view()[0] =~= table@[0]@);
        assert(table.deep_view()[1] =~= table@[1]@);
    }
    Ok(table)
}

/// Reads the 6-bit scale-factor code of every (subband, channel) pair
/// whose allocation code is nonzero, in subband-major order; a muted
/// pair consumes no bits and its scale factor is zero, as are all
/// entries beyond the decoded range.
pub fn decode_scale_factors(
    bit_reader: &mut BitReader,
    num_subbands: usize,
    num_channels: usize,
    allocations: &Vec<Vec<u32>>,
) -> (r: Result<Vec<Vec<u32>>, EndOfStream>)
    requires
        old(bit_reader).wf(),
        1 <= num_channels <= 2,
        num_subbands <= 32,
        table_shape(allocations.deep_view()),
    ensures
        final(bit_reader).wf(),
        final(bit_reader).stream() == old(bit_reader).stream(),
        r is Ok <==> sf_bits_before(
            allocations.deep_view(),
            num_channels as int,
            num_subbands * num_channels,
        ) <= old(bit_reader).bits().len(),
        r matches Ok(sf) ==> {
            &&& table_shape(sf.deep_view())
            &&& final(bit_reader).bits() == old(bit_reader).bits().skip(
                sf_bits_before(
                    allocations.deep_view(),
                    num_channels as int,
                    num_subbands * num_channels,
                ),
            )
            &&& forall|sb: int, ch: int|
                0 <= sb < num_subbands && 0 <= ch < num_channels
                    && allocations.deep_view()[ch][sb] == 0 ==> sf.deep_view()[ch][sb] == 0
            &&& forall|sb: int, ch: int|
                0 <= sb < num_subbands && 0 <= ch < num_channels
                    && allocations.deep_view()[ch][sb] != 0 ==> (sf.deep_view()[ch][sb] as nat)
                    == bits_value(
                    old(bit_reader).bits().subrange(
                        sf_bits_before(
                            allocations.deep_view(),
                            num_channels as int,
                            sb * num_channels + ch,
                        ),
                        sf_bits_before(
                            allocations.deep_view(),
                            num_channels as int,
                            sb * num_channels + ch,
                        ) + 6,
                    ),
                )
            &&& forall|sb: int, ch: int|
                0 <= sb < 32 && 0 <= ch < 2 ==> sf.deep_view()[ch][sb] < 64
            &&& forall|sb: int, ch: int|
                0 <= sb < 32 && 0 <= ch < 2 && !(sb < num_subbands && ch < num_channels)
                    ==> sf.deep_view()[ch][sb] == 0
        },
{
    let ghost whole = old(bit_reader).bits();
    let ghost av = allocations.deep_view();
    let nc: usize = num_channels;
    let ghost ncint = num_channels as int;
    proof {
        assert(allocations.deep_view()[0] =~= allocations@[0]@);
        assert(allocations.deep_view()[1] =~= allocations@[1]@);
    }
    let ghost mut i: int = 0;
    let mut row0: Vec<u32> = Vec::new();
    let mut row1: Vec<u32> = Vec::new();
    let mut sb: usize = 0;
    while sb < num_subbands
        invariant
            old(bit_reader).wf(),
            bit_reader.wf(),
            bit_reader.stream() == old(bit_reader).stream(),
            1 <= nc <= 2,
            num_channels == nc,
            ncint == nc,
            num_subbands <= 32,
            sb <= num_subbands,
            row0.len() == sb,
            row1.len() == sb,
            whole == old(bit_reader).bits(),
            av == allocations.deep_view(),
            table_shape(av),
            av[0] == allocations@[0]@,
            av[1] == allocations@[1]@,
            allocations@.len() == 2,
            i == sb * nc,
            0 <= i,
            0 <= sf_bits_before(av, ncint, i),
            bit_reader.bits() == whole.skip(sf_bits_before(av, ncint, i)),
            bit_reader.bits().len() == whole.len() - sf_bits_before(av, ncint, i),
            forall|j: int|
                0 <= j < sb ==> {
                    &&& (av[0][j] == 0 ==> row0@[j] == 0)
                    &&& (av[0][j] != 0 ==> (row0@[j] as nat) == bits_value(
                        whole.subrange(
                            sf_bits_before(av, ncint, j * nc),
                            sf_bits_before(av, ncint, j * nc) + 6,
                        ),
                    ))
                    &&& row0@[j] < 64
                },
            forall|j: int|
                0 <= j < sb ==> {
                    &&& (nc == 1 ==> row1@[j] == 0)
                    &&& (nc == 2 && av[1][j] == 0 ==> row1@[j] == 0)
                    &&& (nc == 2 && av[1][j] != 0 ==> (row1@[j] as nat) == bits_value(
                        whole.subrange(
                            sf_bits_before(av, ncint, j * nc + 1),
                            sf_bits_before(av, ncint, j * nc + 1) + 6,
                        ),
                    ))
                    &&& row1@[j] < 64
                },
        decreases num_subbands - sb,
    {
        proof {
            lemma_pair_index(ncint, sb as int, 0);
            vstd::arithmetic::mul::lemma_mul_inequality(
                sb as int + 1,
                num_subbands as int,
                ncint,
            );
            vstd::arithmetic::mul::lemma_mul_is_distributive_add_other_way(
                ncint,
                sb as int,
                1,
            );
            vstd::arithmetic::mul::lemma_mul_basics(ncint);
        }
        let code0: u32 = allocations[0][sb];
        let ghost before = bit_reader.bits();
        let v0: u32;
        if code0 != 0 {
            v0 = match bit_reader.read_bits(6) {
                Ok(v) => v,
                Err(e) => {
                    proof {
                        lemma_bit_costs_monotonic(
                            av,
                            ncint,
                            i + 1,
                            (num_subbands * num_channels) as int,
                        );
                    }
                    return Err(e);
                },
            };
            proof {
                assert(before.take(6) =~= whole.subrange(
                    sf_bits_before(av, ncint, i),
                    sf_bits_before(av, ncint, i) + 6,
                ));
                lemma_bits_value_bound(before.take(6));
                lemma2_to64();
                assert(bit_reader.bits() =~= whole.skip(sf_bits_before(av, ncint, i + 1)));
            }
        } else {
            v0 = 0;
        }
        row0.push(v0);
        if nc == 2 {
            proof {
                lemma_pair_index(ncint, sb as int, 1);
            }
            let code1: u32 = allocations[1][sb];
            let ghost mid = bit_reader.bits();
            let v1: u32;
            if code1 != 0 {
                v1 = match bit_reader.read_bits(6) {
                    Ok(v) => v,
                    Err(e) => {
                        proof {
                            lemma_bit_costs_monotonic(
                                av,
                                ncint,
                                i + 2,
                                (num_subbands * num_channels) as int,
                            );
                        }
                        return Err(e);
                    },
                };
                proof {
                    assert(mid.take(6) =~= whole.subrange(
                        sf_bits_before(av, ncint, i + 1),
                        sf_bits_before(av, ncint, i + 1) + 6,
                    ));
                    lemma_bits_value_bound(mid.take(6));
                    lemma2_to64();
                    assert(bit_reader.bits() =~= whole.skip(sf_bits_before(av, ncint, i + 2)));
                }
            } else {
                v1 = 0;
            }
            row1.push(v1);
        } else {
            row1.push(0);
        }
        proof {
            i = i + ncint;
        }
        sb = sb + 1;
    }
    while row0.len() < 32
        invariant
            num_subbands <= row0.len() <= 32,
            row1.len() == row0.len(),
            av == allocations.deep_view(),
            forall|j: int| num_subbands <= j < row0.len() ==> row0@[j] == 0 && row1@[j] == 0,
            forall|j: int|
                0 <= j < num_subbands ==> {
                    &&& (av[0][j] == 0 ==> row0@[j] == 0)
                    &&& (av[0][j] != 0 ==> (row0@[j] as nat) == bits_value(
                        whole.subrange(
                            sf_bits_before(av, ncint, j * nc),
                            sf_bits_before(av, ncint, j * nc) + 6,
                        ),
                    ))
                    &&& row0@[j] < 64
                },
            forall|j: int|
                0 <= j < num_subbands ==> {
                    &&& (nc == 1 ==> row1@[j] == 0)
                    &&& (nc == 2 && av[1][j] == 0 ==> row1@[j] == 0)
                    &&& (nc == 2 && av[1][j] != 0 ==> (row1@[j] as nat) == bits_value(
                        whole.subrange(
                            sf_bits_before(av, ncint, j * nc + 1),
                            sf_bits_before(av, ncint, j * nc + 1) + 6,
                        ),
                    ))
                    &&& row1@[j] < 64
                },
        decreases 32 - row0.len(),
    {
        row0.push(0);
        row1.push(0);
    }
    let mut table: Vec<Vec<u32>> = Vec::new();
    table.push(row0);
    table.push(row1);
    proof {
        assert(table.deep_view()[0] =~= table@[0]@);
        assert(table.deep_view()[1] =~= table@[1]@);
    }
    Ok(table)
}

/// Reads the raw quantized sample code of every (granule, subband,
/// channel) triple, granule-major then subband-major: a pair's allocation
/// code is the width in bits of each of its twelve sample codes, and a
/// muted pair consumes no bits, its codes all zero.  The dequantization
/// of a code into a subband sample value is the caller's step.
pub fn decode_sample_codes(
    bit_reader: &mut BitReader,
    num_subbands: usize,
    num_channels: usize,
    allocations: &Vec<Vec<u32>>,
) -> (r: Result<Vec<Vec<Vec<u32>>>, EndOfStream>)
    requires
        old(bit_reader).wf(),
        1 <= num_channels <= 2,
        num_subbands <= 32,
        table_shape(allocations.deep_view()),
        forall|sb: int, ch: int|
            0 <= sb < 32 && 0 <= ch < 2 ==> allocations.deep_view()[ch][sb] < 16,
    ensures
        final(bit_reader).wf(),
        final(bit_reader).stream() == old(bit_reader).stream(),
        r is Ok <==> 12 * granule_bits(
            allocations.deep_view(),
            num_channels as int,
            num_subbands as int,
        ) <= old(bit_reader).bits().len(),
        r matches Ok(s) ==> {
            &&& s.deep_view().len() == 2
            &&& (forall|ch: int| 0 <= ch < 2 ==> s.deep_view()[ch].len() == 12)
            &&& (forall|ch: int, g: int|
                0 <= ch < 2 && 0 <= g < 12 ==> s.deep_view()[ch][g].len() == 32)
            &&& final(bit_reader).bits() == old(bit_reader).bits().skip(
                12 * granule_bits(
                    allocations.deep_view(),
                    num_channels as int,
                    num_subbands as int,
                ),
            )
            &&& (forall|g: int, sb: int, ch: int|
                0 <= g < 12 && 0 <= sb < num_subbands && 0 <= ch < num_channels
                    && allocations.deep_view()[ch][sb] == 0 ==> s.deep_view()[ch][g][sb] == 0)
            &&& (forall|g: int, sb: int, ch: int|
                0 <= g < 12 && 0 <= sb < num_subbands && 0 <= ch < num_channels
                    && allocations.deep_view()[ch][sb] != 0 ==> (s.deep_view()[ch][g][sb] as nat)
                    == bits_value(
                    old(bit_reader).bits().subrange(
                        g * granule_bits(
                            allocations.deep_view(),
                            num_channels as int,
                            num_subbands as int,
                        ) + sample_bits_before(
                            allocations.deep_view(),
                            num_channels as int,
                            sb * num_channels + ch,
                        ),
                        g * granule_bits(
                            allocations.deep_view(),
                            num_channels as int,
                            num_subbands as int,
                        ) + sample_bits_before(
                            allocations.deep_view(),
                            num_channels as int,
                            sb * num_channels + ch,
                        ) + allocations.deep_view()[ch][sb],
                    ),
                ) && (s.deep_view()[ch][g][sb] as nat) < pow2(
                    allocations.deep_view()[ch][sb] as nat,
                ))
            &&& (forall|g: int, sb: int, ch: int|
                0 <= g < 12 && 0 <= sb < 32 && 0 <= ch < 2 && !(sb < num_subbands && ch
                    < num_channels) ==> s.deep_view()[ch][g][sb] == 0)
        },
{
    let ghost whole = old(bit_reader).bits();
    let ghost av = allocations.deep_view();
    let nc: usize = num_channels;
    let ghost ncint = num_channels as int;
    let ghost gb = granule_bits(av, ncint, num_subbands as int);
    proof {
        assert(allocations.deep_view()[0] =~= allocations@[0]@);
        assert(allocations.deep_view()[1] =~= allocations@[1]@);
        lemma_bit_costs_monotonic(av, ncint, 0, (num_subbands as int) * ncint);
    }
    let mut gran0: Vec<Vec<u32>> = Vec::new();
    let mut gran1: Vec<Vec<u32>> = Vec::new();
    let mut g: usize = 0;
    while g < 12
        invariant
            old(bit_reader).wf(),
            bit_reader.wf(),
            bit_reader.stream() == old(bit_reader).stream(),
            1 <= nc <= 2,
            num_channels == nc,
            ncint == nc,
            num_subbands <= 32,
            g <= 12,
            gran0.len() == g,
            gran1.len() == g,
            whole == old(bit_reader).bits(),
            av == allocations.deep_view(),
            table_shape(av),
            av[0] == allocations@[0]@,
            av[1] == allocations@[1]@,
            allocations@.len() == 2,
            forall|sb: int, ch: int| 0 <= sb < 32 && 0 <= ch < 2 ==> av[ch][sb] < 16,
            gb == granule_bits(av, ncint, num_subbands as int),
            0 <= gb,
            bit_reader.bits() == whole.skip(g * gb),
            bit_reader.bits().len() == whole.len() - g * gb,
            forall|g2: int| 0 <= g2 < g ==> gran0@[g2]@.len() == 32 && gran1@[g2]@.len() == 32,
            forall|g2: int, j: int|
                0 <= g2 < g && 0 <= j < 32 && !(j < num_subbands) ==> gran0@[g2]@[j] == 0
                    && gran1@[g2]@[j] == 0,
            forall|g2: int, j: int|
                0 <= g2 < g && 0 <= j < num_subbands ==> {
                    &&& (av[0][j] == 0 ==> gran0@[g2]@[j] == 0)
                    &&& (av[0][j] != 0 ==> (gran0@[g2]@[j] as nat) == bits_value(
                        whole.subrange(
                            g2 * gb + sample_bits_before(av, ncint, j * nc),
                            g2 * gb + sample_bits_before(av, ncint, j * nc) + av[0][j],
                        ),
                    ) && (gran0@[g2]@[j] as nat) < pow2(av[0][j] as nat))
                },
            forall|g2: int, j: int|
                0 <= g2 < g && 0 <= j < num_subbands ==> {
                    &&& (nc == 1 ==> gran1@[g2]@[j] == 0)
                    &&& (nc == 2 && av[1][j] == 0 ==> gran1@[g2]@[j] == 0)
                    &&& (nc == 2 && av[1][j] != 0 ==> (gran1@[g2]@[j] as nat) == bits_value(
                        whole.subrange(
                            g2 * gb + sample_bits_before(av, ncint, j * nc + 1),
                            g2 * gb + sample_bits_before(av, ncint, j * nc + 1) + av[1][j],
                        ),
                    ) && (gran1@[g2]@[j] as nat) < pow2(av[1][j] as nat))
                },
        decreases 12 - g,
    {
        let ghost mut i: int = 0;
        let ghost granule_start = bit_reader.bits();
        let mut row0: Vec<u32> = Vec::new();
        let mut row1: Vec<u32> = Vec::new();
        let mut sb: usize = 0;
        proof {
            vstd::arithmetic::mul::lemma_mul_nonnegative(g as int, gb);
        }
        while sb < num_subbands
            invariant
                old(bit_reader).wf(),
                bit_reader.wf(),
                bit_reader.stream() == old(bit_reader).stream(),
                1 <= nc <= 2,
                num_channels == nc,
                ncint == nc,
                num_subbands <= 32,
                g < 12,
                sb <= num_subbands,
                row0.len() == sb,
                row1.len() == sb,
                whole == old(bit_reader).bits(),
                av == allocations.deep_view(),
                table_shape(av),
                av[0] == allocations@[0]@,
                av[1] == allocations@[1]@,
                allocations@.len() == 2,
                forall|sb2: int, ch: int| 0 <= sb2 < 32 && 0 <= ch < 2 ==> av[ch][sb2] < 16,
                gb == granule_bits(av, ncint, num_subbands as int),
                0 <= gb,
                0 <= g * gb,
                i == sb * nc,
                0 <= i,
                0 <= sample_bits_before(av, ncint, i),
                bit_reader.bits() == whole.skip(g * gb + sample_bits_before(av, ncint, i)),
                bit_reader.bits().len() == whole.len() - (g * gb + sample_bits_before(
                    av,
                    ncint,
                    i,
                )),
                forall|j: int|
                    0 <= j < sb ==> {
                        &&& (av[0][j] == 0 ==> row0@[j] == 0)
                        &&& (av[0][j] != 0 ==> (row0@[j] as nat) == bits_value(
                            whole.subrange(
                                g * gb + sample_bits_before(av, ncint, j * nc),
                                g * gb + sample_bits_before(av, ncint, j * nc) + av[0][j],
                            ),
                        ) && (row0@[j] as nat) < pow2(av[0][j] as nat))
                    },
                forall|j: int|
                    0 <= j < sb ==> {
                        &&& (nc == 1 ==> row1@[j] == 0)
                        &&& (nc == 2 && av[1][j] == 0 ==> row1@[j] == 0)
                        &&& (nc == 2 && av[1][j] != 0 ==> (row1@[j] as nat) == bits_value(
                            whole.subrange(
                                g * gb + sample_bits_before(av, ncint, j * nc + 1),
                                g * gb + sample_bits_before(av, ncint, j * nc + 1) + av[1][j],
                            ),
                        ) && (row1@[j] as nat) < pow2(av[1][j] as nat))
                    },
            decreases num_subbands - sb,
        {
            proof {
                lemma_pair_index(ncint, sb as int, 0);
                vstd::arithmetic::mul::lemma_mul_inequality(
                    sb as int + 1,
                    num_subbands as int,
                    ncint,
                );
                vstd::arithmetic::mul::lemma_mul_is_distributive_add_other_way(
                    ncint,
                    sb as int,
                    1,
                );
                vstd::arithmetic::mul::lemma_mul_basics(ncint);
                vstd::arithmetic::mul::lemma_mul_inequality(g as int, 11, gb);
            }
            let code0: u32 = allocations[0][sb];
            let ghost before = bit_reader.bits();
            let v0: u32;
            if code0 != 0 {
                v0 = match bit_reader.read_bits(code0) {
                    Ok(v) => v,
                    Err(e) => {
                        proof {
                            lemma_bit_costs_monotonic(
                                av,
                                ncint,
                                i + 1,
                                (num_subbands as int) * ncint,
                            );
                        }
                        return Err(e);
                    },
                };
                proof {
                    assert(before.take(code0 as int) =~= whole.subrange(
                        g * gb + sample_bits_before(av, ncint, i),
                        g * gb + sample_bits_before(av, ncint, i) + av[0][sb as int],
                    ));
                    lemma_bits_value_bound(before.take(code0 as int));
                    assert(bit_reader.bits() =~= whole.skip(
                        g * gb + sample_bits_before(av, ncint, i + 1),
                    ));
                }
            } else {
                v0 = 0;
            }
            row0.push(v0);
            if nc == 2 {
                proof {
                    lemma_pair_index(ncint, sb as int, 1);
                }
                let code1: u32 = allocations[1][sb];
                let ghost mid = bit_reader.bits();
                let v1: u32;
                if code1 != 0 {
                    v1 = match bit_reader.read_bits(code1) {
                        Ok(v) => v,
                        Err(e) => {
                            proof {
                                lemma_bit_costs_monotonic(
                                    av,
                                    ncint,
                                    i + 2,
                                    (num_subbands as int) * ncint,
                                );
                            }
                            return Err(e);
                        },
                    };
                    proof {
                        assert(mid.take(code1 as int) =~= whole.subrange(
                            g * gb + sample_bits_before(av, ncint, i + 1),
                            g * gb + sample_bits_before(av, ncint, i + 1) + av[1][sb as int],
                        ));
                        lemma_bits_value_bound(mid.take(code1 as int));
                        assert(bit_reader.bits() =~= whole.skip(
                            g * gb + sample_bits_before(av, ncint, i + 2),
                        ));
                    }
                } else {
                    v1 = 0;
                }
                row1.push(v1);
            } else {
                row1.push(0);
            }
            proof {
                i = i + ncint;
            }
            sb = sb + 1;
        }
        while row0.len() < 32
            invariant
                num_subbands <= row0.len() <= 32,
                row1.len() == row0.len(),
                av == allocations.deep_view(),
                forall|j: int| num_subbands <= j < row0.len() ==> row0@[j] == 0 && row1@[j] == 0,
                forall|j: int|
                    0 <= j < num_subbands ==> {
                        &&& (av[0][j] == 0 ==> row0@[j] == 0)
                        &&& (av[0][j] != 0 ==> (row0@[j] as nat) == bits_value(
                            whole.subrange(
                                g * gb + sample_bits_before(av, ncint, j * nc),
                                g * gb + sample_bits_before(av, ncint, j * nc) + av[0][j],
                            ),
                        ) && (row0@[j] as nat) < pow2(av[0][j] as nat))
                    },
                forall|j: int|
                    0 <= j < num_subbands ==> {
                        &&& (nc == 1 ==> row1@[j] == 0)
                        &&& (nc == 2 && av[1][j] == 0 ==> row1@[j] == 0)
                        &&& (nc == 2 && av[1][j] != 0 ==> (row1@[j] as nat) == bits_value(
                            whole.subrange(
                                g * gb + sample_bits_before(av, ncint, j * nc + 1),
                                g * gb + sample_bits_before(av, ncint, j * nc + 1) + av[1][j],
                            ),
                        ) && (row1@[j] as nat) < pow2(av[1][j] as nat))
                    },
            decreases 32 - row0.len(),
        {
            row0.push(0);
            row1.push(0);
        }
        proof {
            // the granule consumed exactly its share of bits
            assert(sample_bits_before(av, ncint, i) == gb);
            vstd::arithmetic::mul::lemma_mul_is_distributive_add_other_way(gb, g as int, 1);
            vstd::arithmetic::mul::lemma_mul_basics(gb);
        }
        gran0.push(row0);
        gran1.push(row1);
        g = g + 1;
    }
    let mut table: Vec<Vec<Vec<u32>>> = Vec::new();
    table.push(gran0);
    table.push(gran1);
    proof {
        assert forall|g2: int, j: int| 0 <= g2 < 12 && 0 <= j < 32 implies {
            &&& table.deep_view()[0][g2][j] == gran0@[g2]@[j]
            &&& table.deep_view()[1][g2][j] == gran1@[g2]@[j]
            &&& table.deep_view()[0][g2].len() == gran0@[g2]@.len()
            &&& table.deep_view()[1][g2].len() == gran1@[g2]@.len()
        } by {
            assert(table.deep_view()[0] =~= gran0.deep_view());
            assert(table.deep_view()[1] =~= gran1.deep_view());
            assert(gran0.deep_view()[g2] =~= gran0@[g2]@);
            assert(gran1.deep_view()[g2] =~= gran1@[g2]@);
        }
        assert(table.deep_view()[0].len() == 12 && table.deep_view()[1].len() == 12) by {
            assert(table.deep_view()[0] =~= gran0.deep_view());
            assert(table.deep_view()[1] =~= gran1.deep_view());
        }
    }
    Ok(table)
}

} // verus!
