//! Run-length packing of per-player trick counts into one unsigned field.
//!
//! The counts `t_0, ..., t_{k-1}` become the bit pattern
//! `1 0^{t_0} 1 0^{t_1} ... 1 0^{t_{k-1}}` read most-significant-bit first:
//! a leading guard bit, then each player's count as a run of zero bits closed
//! off by the next marker (or by the end of the number).  The pattern costs
//! `k + t_0 + ... + t_{k-1}` bits, so it fits a field of that width.

use vstd::prelude::*;
use vstd::arithmetic::power2::*;
use vstd::arithmetic::div_mod::*;
use vstd::arithmetic::mul::*;

verus! {

/// Total of a sequence of trick counts.
pub open spec fn trick_sum(ts: Seq<nat>) -> nat
    decreases ts.len(),
{
    if ts.len() == 0 {
        0
    } else {
        trick_sum(ts.drop_last()) + ts.last()
    }
}

/// Bits the packed form of `ts` costs: one marker per count plus the counts.
pub open spec fn trick_cost(ts: Seq<nat>) -> nat {
    ts.len() + trick_sum(ts)
}

/// The packed value of `ts`: each count appends one marker bit and that many
/// zero bits to the value built so far.
pub open spec fn pack_spec(ts: Seq<nat>) -> nat
    decreases ts.len(),
{
    if ts.len() == 0 {
        0
    } else {
        (2 * pack_spec(ts.drop_last()) + 1) * pow2(ts.last())
    }
}

/// The counts read back out of a packed value, scanning from the least
/// significant bit: `run` zero bits have been seen since the last marker.
pub open spec fn unpack_spec(n: nat, run: nat) -> Seq<nat>
    decreases n,
{
    if n == 0 {
        Seq::empty()
    } else if n % 2 == 0 {
        unpack_spec(n / 2, run + 1)
    } else {
        unpack_spec(n / 2, 0).push(run)
    }
}

/// The trick counts of a `Vec<u8>`, as plain naturals.
pub open spec fn nats_of(ts: Seq<u8>) -> Seq<nat> {
    ts.map_values(|t: u8| t as nat)
}

pub proof fn lemma_trick_sum_take(ts: Seq<nat>, i: int)
    requires
        0 <= i < ts.len(),
    ensures
        trick_sum(ts.take(i + 1)) == trick_sum(ts.take(i)) + ts[i],
        pack_spec(ts.take(i + 1)) == (2 * pack_spec(ts.take(i)) + 1) * pow2(ts[i]),
{
    assert(ts.take(i + 1).drop_last() =~= ts.take(i));
    assert(ts.take(i + 1).last() == ts[i]);
}

/// A prefix never costs more bits than the whole.
proof fn lemma_trick_cost_take(ts: Seq<nat>, i: int)
    requires
        0 <= i <= ts.len(),
    ensures
        trick_cost(ts.take(i)) <= trick_cost(ts),
    decreases ts.len() - i,
{
    if i == ts.len() {
        assert(ts.take(i) =~= ts);
    } else {
        lemma_trick_cost_take(ts, i + 1);
        lemma_trick_sum_take(ts, i);
    }
}

/// The packed value occupies exactly its bit cost: it is below `pow2(cost)`.
pub proof fn lemma_pack_below_cost(ts: Seq<nat>)
    ensures
        pack_spec(ts) < pow2(trick_cost(ts)),
        ts.len() > 0 ==> pack_spec(ts) >= pow2((trick_cost(ts) - 1) as nat),
    decreases ts.len(),
{
    if ts.len() == 0 {
        lemma2_to64();
    } else {
        let dl = ts.drop_last();
        let t = ts.last();
        lemma_pack_below_cost(dl);
        let m = pack_spec(dl);
        let c = trick_cost(dl);
        lemma_pow2_pos(t);
        lemma_pow2_pos(c);
        assert(2 * m + 1 < 2 * pow2(c));
        lemma_pow2_unfold(c + 1);
        assert(trick_cost(ts) == c + 1 + t);
        assert((2 * m + 1) * pow2(t) < pow2(c + 1) * pow2(t)) by {
            lemma_mul_strict_inequality((2 * m + 1) as int, pow2(c + 1) as int, pow2(t) as int);
        };
        lemma_pow2_adds(c + 1, t);
        // Lower bound: the guard bit keeps the top of the pattern at its cost.
        assert(2 * m + 1 >= pow2(c)) by {
            if dl.len() > 0 {
                assert(m >= pow2((c - 1) as nat));
                lemma_pow2_unfold(c);
            } else {
                lemma2_to64();
            }
        };
        assert((2 * m + 1) * pow2(t) >= pow2(c) * pow2(t)) by {
            lemma_mul_inequality(pow2(c) as int, (2 * m + 1) as int, pow2(t) as int);
        };
        lemma_pow2_adds(c, t);
    }
}

/// Multiplying by `pow2(t)` prepends `t` zero bits to the scan.
proof fn lemma_unpack_shift(v: nat, t: nat, run: nat)
    ensures
        unpack_spec(v * pow2(t), run) == unpack_spec(v, run + t),
    decreases t,
{
    if t == 0 {
        lemma2_to64();
        assert(v * pow2(0) == v);
    } else {
        if v == 0 {
            assert(0 * pow2(t) == 0);
        } else {
            lemma_pow2_unfold(t);
            lemma_pow2_pos((t - 1) as nat);
            assert(v * pow2(t) == (v * pow2((t - 1) as nat)) * 2) by {
                lemma_mul_is_associative(v as int, pow2((t - 1) as nat) as int, 2);
            };
            let w = v * pow2((t - 1) as nat);
            assert(w > 0) by {
                lemma_mul_strictly_positive(v as int, pow2((t - 1) as nat) as int);
            };
            assert((w * 2) % 2 == 0 && (w * 2) / 2 == w) by {
                lemma_fundamental_div_mod_converse((w * 2) as int, 2, w as int, 0);
            };
            assert(unpack_spec(v * pow2(t), run) == unpack_spec(w, run + 1));
            lemma_unpack_shift(v, (t - 1) as nat, run + 1);
        }
    }
}

/// Unpacking undoes packing: the round trip holds for every count sequence.
pub proof fn lemma_trick_round_trip(ts: Seq<nat>)
    ensures
        unpack_spec(pack_spec(ts), 0) == ts,
    decreases ts.len(),
{
    if ts.len() == 0 {
        assert(unpack_spec(0, 0) =~= ts);
    } else {
        let dl = ts.drop_last();
        let t = ts.last();
        let m = pack_spec(dl);
        lemma_trick_round_trip(dl);
        lemma_unpack_shift(2 * m + 1, t, 0);
        assert((2 * m + 1) % 2 == 1 && (2 * m + 1) / 2 == m) by {
            lemma_fundamental_div_mod_converse((2 * m + 1) as int, 2, m as int, 1);
        };
        assert(unpack_spec(2 * m + 1, t) == unpack_spec(m, 0).push(t));
        assert(dl.push(t) =~= ts);
    }
}

/// Packs the trick counts into one unsigned value, guard bit first.
pub fn serialize_tricks(tricks: &Vec<u8>) -> (r: u16)
    requires
        trick_cost(nats_of(tricks@)) <= 16,
    ensures
        tricks@.len() > 0 ==> r as nat == pack_spec(nats_of(tricks@)),
        tricks@.len() == 0 ==> r == 1,
{
    let ghost all = nats_of(tricks@);
    let n = tricks.len();
    let mut result: u16 = 1;
    let mut first: bool = true;
    let mut i: usize = 0;
    proof {
        assert(all.take(0) =~= Seq::<nat>::empty());
        lemma2_to64();
    }
    while i < n
        invariant
            i <= n,
            n == tricks@.len(),
            all == nats_of(tricks@),
            trick_cost(all) <= 16,
            first == (i == 0),
            i == 0 ==> result == 1,
            i > 0 ==> result as nat == pack_spec(all.take(i as int)),
        decreases n - i,
    {
        proof {
            lemma_trick_cost_take(all, i + 1);
            lemma_trick_sum_take(all, i as int);
            lemma_pack_below_cost(all.take(i + 1));
            lemma_pow2_strictly_increases(trick_cost(all.take(i + 1)), 17);
            lemma2_to64();
            lemma2_to64_rest();
        }
        if !first {
            proof {
                let m = pack_spec(all.take(i as int));
                assert(pack_spec(all.take(i + 1)) >= 2 * m + 1) by {
                    lemma_pow2_pos(all[i as int]);
                    lemma_mul_inequality(1, pow2(all[i as int]) as int, (2 * m + 1) as int);
                    lemma_mul_is_commutative((2 * m + 1) as int, pow2(all[i as int]) as int);
                };
            }
            result = result * 2;
        }
        first = false;
        let ghost pre = result;
        result = result | 1;
        proof {
            // After the marker bit the value equals the packed prefix with
            // the pending run still to append.
            assert(pre % 2 == 0 ==> pre | 1 == pre + 1) by (bit_vector);
            assert(pre % 2 == 1 ==> pre | 1 == pre) by (bit_vector);
            if i == 0 {
                assert(pack_spec(all.take(0)) == 0);
            } else {
                let m = pack_spec(all.take(i as int));
                assert(pre as nat == 2 * m) by {
                    lemma_mul_is_commutative(2, m as int);
                };
                assert((2 * m) % 2 == 0) by {
                    lemma_fundamental_div_mod_converse((2 * m) as int, 2, m as int, 0);
                };
            }
            assert(result as nat == 2 * pack_spec(all.take(i as int)) + 1);
        }
        let t = tricks[i];
        let ghost base = result as nat;
        let mut k: u8 = 0;
        proof {
            assert(base * pow2(0) == base) by {
                lemma2_to64();
            };
        }
        while k < t
            invariant
                k <= t,
                t == tricks@[i as int],
                i < n,
                n == tricks@.len(),
                all == nats_of(tricks@),
                trick_cost(all) <= 16,
                base == 2 * pack_spec(all.take(i as int)) + 1,
                result as nat == base * pow2(k as nat),
                base * pow2(t as nat) == pack_spec(all.take(i + 1)),
                pack_spec(all.take(i + 1)) < pow2(16),
            decreases t - k,
        {
            proof {
                lemma_pow2_unfold((k + 1) as nat);
                assert(base * (pow2(k as nat) * 2) == (base * pow2(k as nat)) * 2) by {
                    lemma_mul_is_associative(base as int, pow2(k as nat) as int, 2);
                };
                assert(base * pow2((k + 1) as nat) <= base * pow2(t as nat)) by {
                    lemma_pow2_adds((k + 1) as nat, (t - k - 1) as nat);
                    lemma_pow2_pos((t - k - 1) as nat);
                    assert(pow2((k + 1) as nat) <= pow2(t as nat)) by {
                        lemma_mul_inequality(
                            1,
                            pow2((t - k - 1) as nat) as int,
                            pow2((k + 1) as nat) as int,
                        );
                        lemma_mul_is_commutative(
                            pow2((k + 1) as nat) as int,
                            pow2((t - k - 1) as nat) as int,
                        );
                    };
                    lemma_mul_inequality(
                        pow2((k + 1) as nat) as int,
                        pow2(t as nat) as int,
                        base as int,
                    );
                    lemma_mul_is_commutative(base as int, pow2((k + 1) as nat) as int);
                    lemma_mul_is_commutative(base as int, pow2(t as nat) as int);
                };
                lemma2_to64();
                assert((result * 2) as nat == base * pow2((k + 1) as nat));
                assert(result * 2 < pow2(16));
            }
            result = result * 2;
            k = k + 1;
        }
        i = i + 1;
    }
    proof {
        if n > 0 {
            assert(all.take(n as int) =~= all);
        }
    }
    result
}

/// Reads the runs of zero bits back out of a packed value, least significant
/// bit first, and reverses them into player order.
pub fn deserialize_tricks(serialized: &u16) -> (r: Vec<u8>)
    ensures
        nats_of(r@) == unpack_spec(*serialized as nat, 0),
{
    let ghost n0 = *serialized as nat;
    let mut scanned: Vec<u8> = Vec::new();
    let mut value: u16 = *serialized;
    let mut current_trick: u8 = 0;
    proof {
        lemma2_to64();
        lemma2_to64_rest();
        assert(unpack_spec(n0, 0) + nats_of(scanned@).reverse() =~= unpack_spec(n0, 0));
    }
    while value > 0
        invariant
            unpack_spec(n0, 0) == unpack_spec(value as nat, current_trick as nat)
                + nats_of(scanned@).reverse(),
            (value as nat) * pow2(current_trick as nat) <= 65535,
            value == 0 ==> current_trick == 0,
        decreases value,
    {
        proof {
            lemma2_to64();
            lemma2_to64_rest();
            assert(pow2(current_trick as nat) <= (value as nat) * pow2(current_trick as nat)) by {
                lemma_pow2_pos(current_trick as nat);
                lemma_mul_inequality(1, value as int, pow2(current_trick as nat) as int);
                lemma_mul_is_commutative(value as int, pow2(current_trick as nat) as int);
            };
            if current_trick >= 16 {
                lemma_pow2_strictly_increases(16, current_trick as nat);
                assert(false);
            }
        }
        let ghost old_value = value as nat;
        let ghost old_run = current_trick as nat;
        let ghost old_scanned = scanned@;
        if value % 2 == 0 {
            current_trick = current_trick + 1;
            proof {
                lemma_pow2_unfold((old_run + 1) as nat);
                assert(old_value == 2 * (old_value / 2));
                assert((old_value / 2) * (2 * pow2(old_run)) == old_value * pow2(old_run)) by {
                    lemma_mul_is_associative((old_value / 2) as int, 2, pow2(old_run) as int);
                };
            }
        } else {
            scanned.push(current_trick);
            current_trick = 0;
            proof {
                assert(unpack_spec(old_value, old_run) == unpack_spec(old_value / 2, 0).push(
                    old_run,
                ));
                assert(nats_of(scanned@).reverse() =~= seq![old_run] + nats_of(
                    old_scanned,
                ).reverse());
                assert(unpack_spec(old_value / 2, 0) + (seq![old_run] + nats_of(
                    old_scanned,
                ).reverse()) =~= (unpack_spec(old_value / 2, 0).push(old_run)) + nats_of(
                    old_scanned,
                ).reverse());
                assert((old_value / 2) * pow2(0) <= 65535) by {
                    lemma2_to64();
                };
            }
        }
        value = value / 2;
    }
    // A pending run with no closing marker would be emitted here, but the
    // scan only ends once the guard bit itself has been consumed.
    if current_trick > 0 {
        scanned.push(current_trick);
    }
    let len = scanned.len();
    let mut out: Vec<u8> = Vec::new();
    let mut i: usize = 0;
    while i < len
        invariant
            i <= len,
            len == scanned@.len(),
            out@.len() == i,
            forall|j: int| 0 <= j < i ==> out@[j] == scanned@[len - 1 - j],
        decreases len - i,
    {
        out.push(scanned[len - 1 - i]);
        i = i + 1;
    }
    proof {
        assert(nats_of(out@) =~= nats_of(scanned@).reverse());
        assert(unpack_spec(n0, 0) =~= nats_of(out@));
    }
    out
}

} // verus!
