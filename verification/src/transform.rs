//! Transformations of record lists: filtering, renaming, selecting amounts
//! and sorting.

use vstd::prelude::*;

use vstd::arithmetic::power2::{
    lemma_pow2_pos, lemma_pow2_strictly_increases, lemma_pow2_unfold, pow2,
};

use crate::parser::Sale;

verus! {

/// Whether a record is active and belongs to `region`.
pub open spec fn active_in<A>(region: Seq<char>) -> spec_fn(Sale<A>) -> bool {
    |s: Sale<A>| s.active && s.region@ == region
}

/// Whether a record is active.
pub open spec fn is_active<A>() -> spec_fn(Sale<A>) -> bool {
    |s: Sale<A>| s.active
}

/// Keeps the active records of `target_region`, in their order; the others
/// are dropped.
pub fn filter_active_by_region<A>(records: Vec<Sale<A>>, target_region: &str) -> (r: Vec<Sale<A>>)
    ensures
        r@ == records@.filter(active_in::<A>(target_region@)),
{
    let ghost pred = active_in::<A>(target_region@);
    let target = String::from_str(target_region);
    let mut out: Vec<Sale<A>> = Vec::new();
    let ghost all = records@;
    for s in it: records.into_iter()
        invariant
            it.seq() == all,
            target@ == target_region@,
            pred == active_in::<A>(target_region@),
            out@ == it.seq().take(it.index() as int).filter(pred),
    {
        proof {
            let done = it.seq().take(it.index() as int);
            assert(it.seq().take(it.index() + 1) =~= done.push(s));
            done.lemma_filter_push(s, pred);
        }
        if s.active && s.region == target {
            out.push(s);
        }
    }
    assert(all.take(all.len() as int) =~= all);
    out
}

/// `idx` lists, in increasing order, the positions of `s` whose items make
/// up `r`, one position per item of `r`.
pub open spec fn picked_from<T>(s: Seq<T>, r: Seq<T>, idx: Seq<int>) -> bool {
    &&& idx.len() == r.len()
    &&& forall|k: int| 0 <= k < idx.len() ==> 0 <= #[trigger] idx[k] < s.len() && r[k] == s[idx[k]]
    &&& forall|k1: int, k2: int| 0 <= k1 < k2 < idx.len() ==> #[trigger] idx[k1] < #[trigger] idx[k2]
}

/// The positions of the items of `s.filter(p)` in `s`: exactly the positions
/// whose items satisfy `p`, in order.
proof fn filter_positions<T>(s: Seq<T>, p: spec_fn(T) -> bool) -> (idx: Seq<int>)
    ensures
        picked_from(s, s.filter(p), idx),
        forall|i: int| 0 <= i < s.len() ==> (idx.contains(i) <==> p(#[trigger] s[i])),
    decreases s.len(),
{
    if s.len() == 0 {
        reveal(Seq::filter);
        assert(s.filter(p) =~= Seq::<T>::empty());
        Seq::<int>::empty()
    } else {
        let t = s.drop_last();
        let x = s.last();
        assert(s =~= t.push(x));
        t.lemma_filter_push(x, p);
        let it = filter_positions(t, p);
        let n = t.len() as int;
        let idx = if p(x) { it.push(n) } else { it };
        assert forall|k: int| 0 <= k < idx.len() implies 0 <= #[trigger] idx[k] < s.len()
            && s.filter(p)[k] == s[idx[k]] by {
            if k < it.len() {
                assert(idx[k] == it[k]);
                assert(s[it[k]] == t[it[k]]);
            }
        }
        assert forall|i: int| 0 <= i < s.len() implies (idx.contains(i) <==> p(#[trigger] s[i])) by {
            if i < n {
                assert(s[i] == t[i]);
                if idx.contains(i) {
                    let k = choose|k: int| 0 <= k < idx.len() && idx[k] == i;
                    if k < it.len() {
                        assert(it[k] == i);
                    }
                }
                if it.contains(i) {
                    let k = choose|k: int| 0 <= k < it.len() && it[k] == i;
                    assert(idx[k] == i);
                }
            } else {
                if p(x) {
                    assert(idx[it.len() as int] == n);
                } else if idx.contains(i) {
                    let k = choose|k: int| 0 <= k < idx.len() && idx[k] == i;
                    assert(it[k] < n);
                }
            }
        }
        idx
    }
}

/// What the `filter` command keeps: the records that are active and whose
/// region is `region`, every one of them and nothing else, each once, in
/// their original order.
pub proof fn law_filter_keeps_exactly_the_active_records_of_region<A>(
    records: Seq<Sale<A>>,
    region: Seq<char>,
    r: Seq<Sale<A>>,
)
    requires
        r == records.filter(active_in::<A>(region)),
    ensures
        forall|k: int| 0 <= k < r.len() ==> (#[trigger] r[k]).active && r[k].region@ == region,
        forall|i: int|
            0 <= i < records.len() && (#[trigger] records[i]).active && records[i].region@ == region
                ==> r.contains(records[i]),
        exists|idx: Seq<int>|
            picked_from(records, r, idx) && forall|i: int|
                0 <= i < records.len() ==> (idx.contains(i) <==> (#[trigger] records[i]).active
                    && records[i].region@ == region),
{
    let idx = filter_positions(records, active_in::<A>(region));
    assert forall|k: int| 0 <= k < r.len() implies (#[trigger] r[k]).active && r[k].region@ == region by {
        assert(idx.contains(idx[k]));
    }
    assert forall|i: int|
        0 <= i < records.len() && (#[trigger] records[i]).active && records[i].region@ == region
            implies r.contains(records[i]) by {
        assert(active_in::<A>(region)(records[i]));
        assert(idx.contains(i));
        let k = choose|k: int| 0 <= k < idx.len() && idx[k] == i;
        assert(r[k] == records[i]);
    }
    assert forall|i: int| 0 <= i < records.len() implies (idx.contains(i) <==> (
    #[trigger] records[i]).active && records[i].region@ == region) by {
        assert(active_in::<A>(region)(records[i]) == (records[i].active && records[i].region@
            == region));
    }
}

/// What the `aggregate` command totals: the amounts of exactly the records
/// whose `active` flag is set, each once, in their order; an inactive record
/// contributes nothing.
pub proof fn law_active_amounts_come_from_active_records<A>(records: Seq<Sale<A>>, r: Seq<A>)
    requires
        r == records.filter(is_active::<A>()).map_values(|s: Sale<A>| s.amount),
    ensures
        exists|idx: Seq<int>|
            {
                &&& idx.len() == r.len()
                &&& forall|k: int|
                    0 <= k < idx.len() ==> 0 <= #[trigger] idx[k] < records.len() && r[k]
                        == records[idx[k]].amount && records[idx[k]].active
                &&& forall|k1: int, k2: int|
                    0 <= k1 < k2 < idx.len() ==> #[trigger] idx[k1] < #[trigger] idx[k2]
                &&& forall|i: int|
                    0 <= i < records.len() ==> (idx.contains(i) <==> (#[trigger] records[i]).active)
            },
{
    let kept = records.filter(is_active::<A>());
    let idx = filter_positions(records, is_active::<A>());
    assert forall|k: int| 0 <= k < idx.len() implies 0 <= #[trigger] idx[k] < records.len() && r[k]
        == records[idx[k]].amount && records[idx[k]].active by {
        assert(kept[k] == records[idx[k]]);
        assert(idx.contains(idx[k]));
    }
    assert forall|i: int| 0 <= i < records.len() implies (idx.contains(i) <==> (
    #[trigger] records[i]).active) by {
        assert(is_active::<A>()(records[i]) == records[i].active);
    }
}

/// A name for what `str::to_uppercase` returns: the text with every
/// character replaced by its Unicode uppercase mapping.
pub uninterp spec fn uppercase_of(s: Seq<char>) -> Seq<char>;

/// `str::to_uppercase`: the result is named `uppercase_of` of the text,
/// which depends on the text alone. Nothing else is claimed of it.
#[verifier::external_body]
fn to_uppercase(s: &str) -> (r: String)
    ensures
        r@ == uppercase_of(s@),
{
    s.to_uppercase()
}

/// `after` is `before` with its name in uppercase, and nothing else changed.
pub open spec fn renamed_upper<A>(before: Sale<A>, after: Sale<A>) -> bool {
    &&& after.id == before.id
    &&& after.name@ == uppercase_of(before.name@)
    &&& after.region == before.region
    &&& after.amount == before.amount
    &&& after.active == before.active
}

/// Replaces every record's name by its uppercase form; nothing else changes.
pub fn uppercase_names<A>(records: Vec<Sale<A>>) -> (r: Vec<Sale<A>>)
    ensures
        r@.len() == records@.len(),
        forall|i: int| 0 <= i < r@.len() ==> renamed_upper(records@[i], #[trigger] r@[i]),
{
    let mut out: Vec<Sale<A>> = Vec::new();
    let ghost all = records@;
    for s in it: records.into_iter()
        invariant
            it.seq() == all,
            out@.len() == it.index(),
            forall|i: int| 0 <= i < out@.len() ==> renamed_upper(all[i], #[trigger] out@[i]),
    {
        let ghost before = out@;
        let mut s = s;
        let upper = to_uppercase(s.name.as_str());
        s.name = upper;
        out.push(s);
        assert forall|i: int| 0 <= i < out@.len() implies renamed_upper(all[i], #[trigger] out@[i]) by {
            if i < before.len() {
                assert(out@[i] == before[i]);
            }
        }
    }
    out
}

/// What the `map` command changes: the list keeps its length, and each
/// record keeps its id, region, amount and active flag, its name replaced by
/// the uppercase form of the name it had.
pub proof fn law_uppercase_changes_only_names<A>(before: Seq<Sale<A>>, after: Seq<Sale<A>>)
    requires
        after.len() == before.len(),
        forall|i: int| 0 <= i < after.len() ==> renamed_upper(before[i], #[trigger] after[i]),
    ensures
        forall|i: int|
            0 <= i < after.len() ==> {
                &&& (#[trigger] after[i]).id == before[i].id
                &&& after[i].region == before[i].region
                &&& after[i].amount == before[i].amount
                &&& after[i].active == before[i].active
                &&& after[i].name@ == uppercase_of(before[i].name@)
            },
{
}

/// The amounts of the active records, in order.
pub fn active_amounts<A: Copy>(records: &[Sale<A>]) -> (r: Vec<A>)
    ensures
        r@ == records@.filter(is_active::<A>()).map_values(|s: Sale<A>| s.amount),
{
    let ghost pred = is_active::<A>();
    let mut out: Vec<A> = Vec::new();
    let n = records.len();
    let mut i: usize = 0;
    assert(records@.take(0) =~= Seq::<Sale<A>>::empty());
    while i < n
        invariant
            n == records@.len(),
            i <= n,
            pred == is_active::<A>(),
            out@ == records@.take(i as int).filter(pred).map_values(|s: Sale<A>| s.amount),
        decreases n - i,
    {
        let s = &records[i];
        proof {
            let done = records@.take(i as int);
            assert(records@.take(i + 1) =~= done.push(*s));
            done.lemma_filter_push(*s, pred);
        }
        if s.active {
            let ghost before = out@;
            out.push(s.amount);
            proof {
                let done = records@.take(i as int);
                assert(done.filter(pred).push(*s).map_values(|s: Sale<A>| s.amount)
                    =~= before.push(s.amount));
            }
        }
        i = i + 1;
    }
    assert(records@.take(n as int) =~= records@);
    out
}

/// The sign bit of an IEEE 754 binary64 encoding.
pub open spec fn sign_bit() -> int {
    0x8000_0000_0000_0000
}

/// Whether `bits` encodes a NaN: all exponent bits set and a non-zero fraction.
pub open spec fn amount_is_nan(bits: u64) -> bool {
    bits % 0x8000_0000_0000_0000 > 0x7ff0_0000_0000_0000
}

/// An integer that orders the numbers encoded by `bits` as `f64::partial_cmp`
/// does, for all encodings but NaN: both zeros rank 0, positive numbers rank
/// by their encoding, negative numbers by minus their magnitude's encoding.
pub open spec fn amount_rank(bits: u64) -> int {
    if bits < sign_bit() {
        bits as int
    } else {
        sign_bit() - bits
    }
}

/// `a < b` for the numbers encoded by `a` and `b`, as `f64` compares them
/// (never true when either is NaN).
pub open spec fn amount_less(a: u64, b: u64) -> bool {
    !amount_is_nan(a) && !amount_is_nan(b) && amount_rank(a) < amount_rank(b)
}

/// No record's amount is NaN.
pub open spec fn no_nan_amount(s: Seq<Sale<u64>>) -> bool {
    forall|i: int| 0 <= i < s.len() ==> !amount_is_nan(#[trigger] s[i].amount)
}

/// Amounts never increase from one record to a later one.
pub open spec fn sorted_by_amount_desc(s: Seq<Sale<u64>>) -> bool {
    forall|i: int, j: int|
        0 <= i < j < s.len() ==> amount_rank(#[trigger] s[j].amount) <= amount_rank(
            #[trigger] s[i].amount,
        )
}

/// Whether a record's amount has rank `k`.
pub open spec fn has_rank(k: int) -> spec_fn(Sale<u64>) -> bool {
    |s: Sale<u64>| amount_rank(s.amount) == k
}

/// The low 63 bits of an IEEE 754 binary64 encoding: everything but the sign.
pub open spec fn unsigned_bits(bits: u64) -> int {
    bits as int % 0x8000_0000_0000_0000
}

/// The biased exponent field of an IEEE 754 binary64 encoding (11 bits).
pub open spec fn exponent_field(bits: u64) -> int {
    unsigned_bits(bits) / 0x10_0000_0000_0000
}

/// The fraction field of an IEEE 754 binary64 encoding (52 bits).
pub open spec fn fraction_field(bits: u64) -> int {
    unsigned_bits(bits) % 0x10_0000_0000_0000
}

/// The sign bit is set.
pub open spec fn encoded_negative(bits: u64) -> bool {
    bits as int >= 0x8000_0000_0000_0000
}

/// The encoding of a NaN: exponent all ones, fraction not zero.
pub open spec fn encodes_nan(bits: u64) -> bool {
    exponent_field(bits) == 0x7ff && fraction_field(bits) != 0
}

/// The encoding of an infinity: exponent all ones, fraction zero.
pub open spec fn encodes_infinity(bits: u64) -> bool {
    exponent_field(bits) == 0x7ff && fraction_field(bits) == 0
}

/// The absolute value of a finite number, times 2^1074 (an integer): a
/// subnormal is its fraction times 2^-1074, a normal number is
/// (2^52 + fraction) times 2^(exponent - 1075).
pub open spec fn scaled_magnitude(bits: u64) -> int {
    if exponent_field(bits) == 0 {
        fraction_field(bits)
    } else {
        (0x10_0000_0000_0000 + fraction_field(bits)) * pow2((exponent_field(bits) - 1) as nat)
    }
}

/// A finite number times 2^1074, with its sign.
pub open spec fn scaled_value(bits: u64) -> int {
    if encoded_negative(bits) {
        -scaled_magnitude(bits)
    } else {
        scaled_magnitude(bits)
    }
}

/// `a < b` for the numbers that `a` and `b` encode, by their values: never
/// true when either is NaN; minus infinity is below everything else and plus
/// infinity above everything else.
pub open spec fn encoded_less(a: u64, b: u64) -> bool {
    if encodes_nan(a) || encodes_nan(b) {
        false
    } else if encodes_infinity(a) {
        encoded_negative(a) && !(encodes_infinity(b) && encoded_negative(b))
    } else if encodes_infinity(b) {
        !encoded_negative(b)
    } else {
        scaled_value(a) < scaled_value(b)
    }
}

/// Bounds on the magnitude of a finite number by its exponent.
proof fn lemma_scaled_magnitude_bounds(x: u64)
    requires
        exponent_field(x) < 0x7ff,
    ensures
        0 <= scaled_magnitude(x) < 0x10_0000_0000_0000 * pow2(exponent_field(x) as nat),
        exponent_field(x) >= 1 ==> scaled_magnitude(x) >= 0x10_0000_0000_0000 * pow2(
            (exponent_field(x) - 1) as nat,
        ),
        scaled_magnitude(x) == 0 <==> unsigned_bits(x) == 0,
{
    let e = exponent_field(x);
    let f = fraction_field(x);
    assert(unsigned_bits(x) == e * 0x10_0000_0000_0000 + f);
    assert(0 <= f < 0x10_0000_0000_0000);
    if e == 0 {
        assert(pow2(0) == 1) by {
            reveal(vstd::arithmetic::power::pow);
        }
    } else {
        let p = pow2((e - 1) as nat);
        lemma_pow2_pos((e - 1) as nat);
        lemma_pow2_unfold(e as nat);
        assert(pow2(e as nat) == 2 * p);
        assert((0x10_0000_0000_0000 + f) * p < 0x10_0000_0000_0000 * (2 * p)) by (nonlinear_arith)
            requires
                0 <= f < 0x10_0000_0000_0000,
                p > 0,
        ;
        assert((0x10_0000_0000_0000 + f) * p >= 0x10_0000_0000_0000 * p) by (nonlinear_arith)
            requires
                0 <= f,
                p > 0,
        ;
        assert(0x10_0000_0000_0000 * p > 0) by (nonlinear_arith)
            requires
                p > 0,
        ;
    }
}

/// Among finite numbers of one sign, a larger encoding is a larger magnitude.
proof fn lemma_scaled_magnitude_increases(x: u64, y: u64)
    requires
        unsigned_bits(x) < unsigned_bits(y),
        exponent_field(y) < 0x7ff,
    ensures
        scaled_magnitude(x) < scaled_magnitude(y),
{
    let e1 = exponent_field(x);
    let e2 = exponent_field(y);
    let f1 = fraction_field(x);
    let f2 = fraction_field(y);
    assert(unsigned_bits(x) == e1 * 0x10_0000_0000_0000 + f1);
    assert(unsigned_bits(y) == e2 * 0x10_0000_0000_0000 + f2);
    assert(e1 <= e2);
    lemma_scaled_magnitude_bounds(x);
    lemma_scaled_magnitude_bounds(y);
    if e1 == e2 {
        assert(f1 < f2);
        if e1 > 0 {
            let p = pow2((e1 - 1) as nat);
            lemma_pow2_pos((e1 - 1) as nat);
            assert((0x10_0000_0000_0000 + f1) * p < (0x10_0000_0000_0000 + f2) * p) by (nonlinear_arith)
                requires
                    f1 < f2,
                    p > 0,
            ;
        }
    } else {
        assert(e1 < e2);
        assert(pow2(e1 as nat) <= pow2((e2 - 1) as nat)) by {
            if e1 < e2 - 1 {
                lemma_pow2_strictly_increases(e1 as nat, (e2 - 1) as nat);
            }
        }
        let p1 = pow2(e1 as nat);
        let p2 = pow2((e2 - 1) as nat);
        assert(0x10_0000_0000_0000 * p1 <= 0x10_0000_0000_0000 * p2) by (nonlinear_arith)
            requires
                p1 <= p2,
        ;
    }
}

/// Whether `bits` encodes a NaN is what `amount_is_nan` says.
pub proof fn law_nan_is_ieee_nan(bits: u64)
    ensures
        amount_is_nan(bits) == encodes_nan(bits),
{
    assert(unsigned_bits(bits) == exponent_field(bits) * 0x10_0000_0000_0000 + fraction_field(
        bits,
    ));
}

/// The order that sorting uses is the order of the numbers encoded: for
/// amounts that are not NaN, a smaller rank is exactly a smaller number
/// (so equal ranks are exactly equal numbers, `-0` equal to `0`), and
/// `amount_less` is `<` on the numbers for all encodings.
pub proof fn law_rank_orders_amounts_like_numbers(a: u64, b: u64)
    ensures
        amount_less(a, b) == encoded_less(a, b),
        !encodes_nan(a) && !encodes_nan(b) ==> (amount_rank(a) < amount_rank(b) <==> encoded_less(
            a,
            b,
        )),
{
    law_nan_is_ieee_nan(a);
    law_nan_is_ieee_nan(b);
    if !encodes_nan(a) && !encodes_nan(b) {
        let ra = unsigned_bits(a);
        let rb = unsigned_bits(b);
        assert(ra == exponent_field(a) * 0x10_0000_0000_0000 + fraction_field(a));
        assert(rb == exponent_field(b) * 0x10_0000_0000_0000 + fraction_field(b));
        assert(amount_rank(a) == (if encoded_negative(a) { -ra } else { ra }));
        assert(amount_rank(b) == (if encoded_negative(b) { -rb } else { rb }));
        assert(ra <= 0x7ff0_0000_0000_0000);
        assert(rb <= 0x7ff0_0000_0000_0000);
        assert(encodes_infinity(a) <==> ra == 0x7ff0_0000_0000_0000);
        assert(encodes_infinity(b) <==> rb == 0x7ff0_0000_0000_0000);
        if !encodes_infinity(a) && !encodes_infinity(b) {
            lemma_scaled_magnitude_bounds(a);
            lemma_scaled_magnitude_bounds(b);
            if ra < rb {
                lemma_scaled_magnitude_increases(a, b);
            } else if rb < ra {
                lemma_scaled_magnitude_increases(b, a);
            } else {
                assert(exponent_field(a) == exponent_field(b));
                assert(fraction_field(a) == fraction_field(b));
                assert(scaled_magnitude(a) == scaled_magnitude(b));
            }
        }
    }
}

/// `a < b` for the numbers encoded by `a` and `b`, as `f64` compares them.
fn amount_lt(a: u64, b: u64) -> (r: bool)
    ensures
        r == amount_less(a, b),
{
    let nan_a = a % 0x8000_0000_0000_0000 > 0x7ff0_0000_0000_0000;
    let nan_b = b % 0x8000_0000_0000_0000 > 0x7ff0_0000_0000_0000;
    if nan_a || nan_b {
        false
    } else if a < 0x8000_0000_0000_0000 {
        b < 0x8000_0000_0000_0000 && a < b
    } else if b < 0x8000_0000_0000_0000 {
        !(a == 0x8000_0000_0000_0000 && b == 0)
    } else {
        b < a
    }
}

/// One step of selection: moving the first record of greatest rank from the
/// rest to the end of the output keeps, for every rank, the records of that
/// rank in their order.
proof fn lemma_select_keeps_rank_order(out: Seq<Sale<u64>>, rest: Seq<Sale<u64>>, m: int, k: int)
    requires
        0 <= m < rest.len(),
        forall|t: int| 0 <= t < m ==> amount_rank(#[trigger] rest[t].amount) < amount_rank(rest[m].amount),
    ensures
        out.push(rest[m]).filter(has_rank(k)) + rest.remove(m).filter(has_rank(k))
            == out.filter(has_rank(k)) + rest.filter(has_rank(k)),
{
    let p = has_rank(k);
    let x = rest[m];
    let a = rest.take(m);
    let b = rest.skip(m + 1);
    assert(rest =~= a + seq![x] + b);
    assert(rest.remove(m) =~= a + b);
    Seq::filter_distributes_over_add(a + seq![x], b, p);
    Seq::filter_distributes_over_add(a, seq![x], p);
    Seq::filter_distributes_over_add(a, b, p);
    out.lemma_filter_push(x, p);
    assert(seq![x] =~= Seq::<Sale<u64>>::empty().push(x));
    Seq::<Sale<u64>>::empty().lemma_filter_push(x, p);
    reveal(Seq::filter);
    assert(Seq::<Sale<u64>>::empty().filter(p) =~= Seq::<Sale<u64>>::empty());
    if k == amount_rank(x.amount) {
        assert(a.all(|y: Sale<u64>| !p(y))) by {
            assert forall|t: int| 0 <= t < a.len() implies !p(#[trigger] a[t]) by {
                assert(a[t] == rest[t]);
            }
        }
        a.lemma_all_neg_filter_empty(p);
        assert(a.filter(p) =~= Seq::<Sale<u64>>::empty());
        assert(out.push(x).filter(p) + (a + b).filter(p) =~= out.filter(p) + (a + seq![x] + b).filter(p));
    } else {
        assert(out.push(x).filter(p) + (a + b).filter(p) =~= out.filter(p) + (a + seq![x] + b).filter(p));
    }
}

/// Sorts records by amount, largest first, keeping records of equal amounts
/// in their order. Amounts are given by their IEEE 754 binary64 encoding
/// (`f64::to_bits`); with a NaN among them no order is promised, only that
/// the records are rearranged.
pub fn sort_sales_by_amount_desc(records: &mut Vec<Sale<u64>>)
    ensures
        final(records)@.to_multiset() == old(records)@.to_multiset(),
        no_nan_amount(old(records)@) ==> sorted_by_amount_desc(final(records)@),
        no_nan_amount(old(records)@) ==> forall|k: int|
            #[trigger] final(records)@.filter(has_rank(k)) == old(records)@.filter(has_rank(k)),
{
    broadcast use vstd::seq_lib::group_to_multiset_ensures;
    broadcast use vstd::multiset::group_multiset_axioms;
    let mut rest: Vec<Sale<u64>> = Vec::new();
    std::mem::swap(records, &mut rest);
    let ghost o = rest@;
    let mut out: Vec<Sale<u64>> = Vec::new();
    assert(out@.to_multiset() =~= vstd::multiset::Multiset::<Sale<u64>>::empty());
    proof {
        reveal(Seq::filter);
        assert forall|k: int| out@.filter(has_rank(k)) + rest@.filter(has_rank(k)) == o.filter(
            has_rank(k),
        ) by {
            assert(out@.filter(has_rank(k)) =~= Seq::<Sale<u64>>::empty());
            assert(out@.filter(has_rank(k)) + rest@.filter(has_rank(k)) =~= o.filter(has_rank(k)));
        }
    }
    while rest.len() > 0
        invariant
            out@.to_multiset().add(rest@.to_multiset()) == o.to_multiset(),
            no_nan_amount(o) ==> no_nan_amount(rest@),
            no_nan_amount(o) ==> sorted_by_amount_desc(out@),
            no_nan_amount(o) ==> forall|a: int, b: int|
                0 <= a < out@.len() && 0 <= b < rest@.len() ==> amount_rank(
                    #[trigger] rest@[b].amount,
                ) <= amount_rank(#[trigger] out@[a].amount),
            no_nan_amount(o) ==> forall|k: int|
                #[trigger] out@.filter(has_rank(k)) + rest@.filter(has_rank(k)) == o.filter(
                    has_rank(k),
                ),
        decreases rest@.len(),
    {
        let n = rest.len();
        let mut m: usize = 0;
        let mut j: usize = 1;
        while j < n
            invariant
                n == rest@.len(),
                m < j <= n,
                no_nan_amount(rest@) ==> forall|t: int|
                    0 <= t < j ==> amount_rank(#[trigger] rest@[t].amount) <= amount_rank(
                        rest@[m as int].amount,
                    ),
                no_nan_amount(rest@) ==> forall|t: int|
                    0 <= t < m ==> amount_rank(#[trigger] rest@[t].amount) < amount_rank(
                        rest@[m as int].amount,
                    ),
            decreases n - j,
        {
            if amount_lt(rest[m].amount, rest[j].amount) {
                proof {
                    if no_nan_amount(rest@) {
                        assert(!amount_is_nan(rest@[m as int].amount));
                        assert(!amount_is_nan(rest@[j as int].amount));
                    }
                }
                m = j;
            } else {
                proof {
                    if no_nan_amount(rest@) {
                        assert(!amount_is_nan(rest@[m as int].amount));
                        assert(!amount_is_nan(rest@[j as int].amount));
                    }
                }
            }
            j = j + 1;
        }
        let ghost r0 = rest@;
        let ghost out0 = out@;
        let x = rest.remove(m);
        proof {
            assert(r0[m as int] == x);
            assert(r0.contains(x));
            vstd::seq_lib::to_multiset_contains(r0, x);
            vstd::seq_lib::to_multiset_build(out0, x);
            vstd::seq_lib::to_multiset_remove(r0, m as int);
            assert(r0.to_multiset().count(x) > 0);
            assert(out0.push(x).to_multiset() =~= out0.to_multiset().insert(x));
            assert(r0.remove(m as int).to_multiset() =~= r0.to_multiset().remove(x));
            assert(out0.push(x).to_multiset().add(r0.remove(m as int).to_multiset())
                =~= out0.to_multiset().add(r0.to_multiset()));
            if no_nan_amount(o) {
                assert forall|k: int|
                    #[trigger] out0.push(x).filter(has_rank(k)) + r0.remove(m as int).filter(
                        has_rank(k),
                    ) == o.filter(has_rank(k)) by {
                    lemma_select_keeps_rank_order(out0, r0, m as int, k);
                }
                assert forall|t: int| 0 <= t < rest@.len() implies !amount_is_nan(
                    #[trigger] rest@[t].amount,
                ) by {
                    if t < m {
                        assert(rest@[t] == r0[t]);
                    } else {
                        assert(rest@[t] == r0[t + 1]);
                    }
                }
                assert forall|a: int, b: int|
                    0 <= a < out0.len() + 1 && 0 <= b < rest@.len() implies amount_rank(
                    #[trigger] rest@[b].amount,
                ) <= amount_rank(#[trigger] out0.push(x)[a].amount) by {
                    if b < m {
                        assert(rest@[b] == r0[b]);
                    } else {
                        assert(rest@[b] == r0[b + 1]);
                    }
                    if a < out0.len() {
                        assert(out0.push(x)[a] == out0[a]);
                    }
                }
                assert forall|a: int, b: int|
                    0 <= a < b < out0.len() + 1 implies amount_rank(
                    #[trigger] out0.push(x)[b].amount,
                ) <= amount_rank(#[trigger] out0.push(x)[a].amount) by {
                    assert(out0.push(x)[a] == out0[a]);
                    if b < out0.len() {
                        assert(out0.push(x)[b] == out0[b]);
                    }
                }
            }
        }
        out.push(x);
    }
    proof {
        assert(rest@ =~= Seq::<Sale<u64>>::empty());
        reveal(Seq::filter);
        assert(rest@.to_multiset() =~= vstd::multiset::Multiset::<Sale<u64>>::empty());
        assert(out@.to_multiset() =~= o.to_multiset());
        if no_nan_amount(o) {
            assert forall|k: int| #[trigger] out@.filter(has_rank(k)) == o.filter(has_rank(k)) by {
                assert(rest@.filter(has_rank(k)) =~= Seq::<Sale<u64>>::empty());
                assert(out@.filter(has_rank(k)) + rest@.filter(has_rank(k)) == o.filter(has_rank(k)));
                assert(out@.filter(has_rank(k)) + rest@.filter(has_rank(k)) =~= out@.filter(has_rank(k)));
            }
        }
    }
    *records = out;
}

/// Splitting off the first record of a list splits its records of each rank.
proof fn lemma_rank_filter_first(a: Seq<Sale<u64>>, k: int)
    requires
        a.len() > 0,
    ensures
        a.filter(has_rank(k)) == (if amount_rank(a[0].amount) == k {
            seq![a[0]]
        } else {
            Seq::<Sale<u64>>::empty()
        }) + a.drop_first().filter(has_rank(k)),
{
    assert(a =~= seq![a[0]] + a.drop_first());
    a.drop_first().lemma_filter_prepend(a[0], has_rank(k));
}

/// A list with a record of rank `k` has a non-empty list of records of rank `k`.
proof fn lemma_rank_present(a: Seq<Sale<u64>>, i: int)
    requires
        0 <= i < a.len(),
    ensures
        a.filter(has_rank(amount_rank(a[i].amount))).len() > 0,
{
    a.lemma_filter_contains(has_rank(amount_rank(a[i].amount)), i);
}

/// A record in the list of records of rank `k` is a record of the list, of rank `k`.
proof fn lemma_rank_member(a: Seq<Sale<u64>>, k: int)
    requires
        a.filter(has_rank(k)).len() > 0,
    ensures
        exists|i: int| 0 <= i < a.len() && amount_rank(#[trigger] a[i].amount) == k,
{
    let f = a.filter(has_rank(k));
    assert(f.contains(f[0]));
    a.lemma_filter_contains_rev(has_rank(k), f[0]);
    a.lemma_filter_pred(has_rank(k), 0);
    let i = choose|i: int| 0 <= i < a.len() && a[i] == f[0];
    assert(amount_rank(a[i].amount) == k);
}

/// Two lists sorted by amount (largest first) that hold, for every amount,
/// the same records of that amount in the same order are the same list: a
/// stable sort by amount has exactly one possible result.
pub proof fn law_stable_sorted_order_is_unique(a: Seq<Sale<u64>>, b: Seq<Sale<u64>>)
    requires
        sorted_by_amount_desc(a),
        sorted_by_amount_desc(b),
        forall|k: int| #[trigger] a.filter(has_rank(k)) == b.filter(has_rank(k)),
    ensures
        a == b,
    decreases a.len() + b.len(),
{
    if a.len() == 0 || b.len() == 0 {
        if a.len() > 0 {
            lemma_rank_present(a, 0);
            let k = amount_rank(a[0].amount);
            assert(a.filter(has_rank(k)) == b.filter(has_rank(k)));
            lemma_rank_member(b, k);
        } else if b.len() > 0 {
            lemma_rank_present(b, 0);
            let k = amount_rank(b[0].amount);
            assert(a.filter(has_rank(k)) == b.filter(has_rank(k)));
            lemma_rank_member(a, k);
        } else {
            assert(a =~= b);
        }
    } else {
        let ka = amount_rank(a[0].amount);
        let kb = amount_rank(b[0].amount);
        lemma_rank_present(a, 0);
        lemma_rank_present(b, 0);
        assert(a.filter(has_rank(ka)) == b.filter(has_rank(ka)));
        assert(a.filter(has_rank(kb)) == b.filter(has_rank(kb)));
        lemma_rank_member(b, ka);
        lemma_rank_member(a, kb);
        let ib = choose|i: int| 0 <= i < b.len() && amount_rank(#[trigger] b[i].amount) == ka;
        let ia = choose|i: int| 0 <= i < a.len() && amount_rank(#[trigger] a[i].amount) == kb;
        if ib > 0 {
            assert(amount_rank(b[ib].amount) <= amount_rank(b[0].amount));
        }
        if ia > 0 {
            assert(amount_rank(a[ia].amount) <= amount_rank(a[0].amount));
        }
        assert(ka == kb);
        lemma_rank_filter_first(a, ka);
        lemma_rank_filter_first(b, ka);
        assert(a.filter(has_rank(ka))[0] == a[0]);
        assert(b.filter(has_rank(ka))[0] == b[0]);
        let a1 = a.drop_first();
        let b1 = b.drop_first();
        assert forall|k: int| #[trigger] a1.filter(has_rank(k)) == b1.filter(has_rank(k)) by {
            lemma_rank_filter_first(a, k);
            lemma_rank_filter_first(b, k);
            assert(a.filter(has_rank(k)) == b.filter(has_rank(k)));
            if k == ka {
                assert(a1.filter(has_rank(k)) =~= a.filter(has_rank(k)).drop_first());
                assert(b1.filter(has_rank(k)) =~= b.filter(has_rank(k)).drop_first());
            } else {
                assert(a1.filter(has_rank(k)) =~= a.filter(has_rank(k)));
                assert(b1.filter(has_rank(k)) =~= b.filter(has_rank(k)));
            }
        }
        assert(sorted_by_amount_desc(a1)) by {
            assert forall|i: int, j: int| 0 <= i < j < a1.len() implies amount_rank(
                #[trigger] a1[j].amount,
            ) <= amount_rank(#[trigger] a1[i].amount) by {
                assert(a1[i] == a[i + 1] && a1[j] == a[j + 1]);
            }
        }
        assert(sorted_by_amount_desc(b1)) by {
            assert forall|i: int, j: int| 0 <= i < j < b1.len() implies amount_rank(
                #[trigger] b1[j].amount,
            ) <= amount_rank(#[trigger] b1[i].amount) by {
                assert(b1[i] == b[i + 1] && b1[j] == b[j + 1]);
            }
        }
        law_stable_sorted_order_is_unique(a1, b1);
        assert(a =~= seq![a[0]] + a1);
        assert(b =~= seq![b[0]] + b1);
    }
}

/// In a list sorted by amount, largest first, with no NaN amount, no record
/// has a smaller amount than a record after it, by the numbers encoded.
pub proof fn law_sorted_list_has_no_later_larger_amount(s: Seq<Sale<u64>>)
    requires
        no_nan_amount(s),
        sorted_by_amount_desc(s),
    ensures
        forall|i: int| 0 <= i < s.len() ==> !encodes_nan(#[trigger] s[i].amount),
        forall|i: int, j: int|
            0 <= i < j < s.len() ==> !encoded_less(#[trigger] s[i].amount, #[trigger] s[j].amount),
{
    assert forall|i: int| 0 <= i < s.len() implies !encodes_nan(#[trigger] s[i].amount) by {
        law_nan_is_ieee_nan(s[i].amount);
    }
    assert forall|i: int, j: int| 0 <= i < j < s.len() implies !encoded_less(
        #[trigger] s[i].amount,
        #[trigger] s[j].amount,
    ) by {
        law_nan_is_ieee_nan(s[i].amount);
        law_nan_is_ieee_nan(s[j].amount);
        law_rank_orders_amounts_like_numbers(s[i].amount, s[j].amount);
    }
}

/// Sorting records that are already sorted by amount (none of them NaN)
/// leaves them as they are.
pub proof fn law_sorting_sorted_records_changes_nothing(before: Seq<Sale<u64>>, after: Seq<Sale<u64>>)
    requires
        no_nan_amount(before),
        sorted_by_amount_desc(before),
        sorted_by_amount_desc(after),
        forall|k: int| #[trigger] after.filter(has_rank(k)) == before.filter(has_rank(k)),
    ensures
        after == before,
{
    law_stable_sorted_order_is_unique(after, before);
}

/// What the `filter` command promises: keeping the active records of a
/// region and then sorting them by amount yields only active records of that
/// region, every one of them, largest amount first, records of equal amounts
/// in their original order.
pub proof fn law_filter_then_sort(
    records: Seq<Sale<u64>>,
    region: Seq<char>,
    kept: Seq<Sale<u64>>,
    sorted: Seq<Sale<u64>>,
)
    requires
        no_nan_amount(records),
        kept == records.filter(active_in::<u64>(region)),
        sorted.to_multiset() == kept.to_multiset(),
        no_nan_amount(kept) ==> sorted_by_amount_desc(sorted),
        no_nan_amount(kept) ==> forall|k: int|
            #[trigger] sorted.filter(has_rank(k)) == kept.filter(has_rank(k)),
    ensures
        forall|i: int| 0 <= i < sorted.len() ==> (#[trigger] sorted[i]).active && sorted[i].region@ == region,
        sorted.len() == kept.len(),
        sorted_by_amount_desc(sorted),
        forall|k: int| #[trigger] sorted.filter(has_rank(k)) == records.filter(active_in::<u64>(region)).filter(has_rank(k)),
{
    broadcast use vstd::seq_lib::group_to_multiset_ensures;
    let p = active_in::<u64>(region);
    assert(no_nan_amount(kept)) by {
        assert forall|i: int| 0 <= i < kept.len() implies !amount_is_nan(#[trigger] kept[i].amount) by {
            assert(kept.contains(kept[i]));
            records.lemma_filter_contains_rev(p, kept[i]);
            let j = choose|j: int| 0 <= j < records.len() && records[j] == kept[i];
        }
    }
    assert forall|i: int| 0 <= i < sorted.len() implies (#[trigger] sorted[i]).active && sorted[i].region@ == region by {
        vstd::seq_lib::to_multiset_contains(sorted, sorted[i]);
        vstd::seq_lib::to_multiset_contains(kept, sorted[i]);
        assert(sorted.contains(sorted[i]));
        assert(kept.contains(sorted[i]));
        let j = choose|j: int| 0 <= j < kept.len() && kept[j] == sorted[i];
        records.lemma_filter_pred(p, j);
    }
    vstd::seq_lib::to_multiset_len(sorted);
    vstd::seq_lib::to_multiset_len(kept);
}

} // verus!
