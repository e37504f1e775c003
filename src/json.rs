//! The interchange value model.
use vstd::prelude::*;

verus! {

/// A decimal number: `mantissa / 10^scale`.
#[derive(Clone, Copy, Debug)]
pub struct Decimal {
    pub mantissa: i64,
    pub scale: u8,
}

/// A JSON value. An object keeps its members in input order.
#[derive(Debug)]
pub enum Json {
    Null,
    Bool(bool),
    Number(Decimal),
    Str(String),
    Array(Vec<Json>),
    Object(Vec<(String, Json)>),
}

/// Index of the first member of `obj` with key `k`.
pub open spec fn first_key(obj: Seq<(String, Json)>, k: Seq<char>) -> Option<int>
    decreases obj.len(),
{
    if obj.len() == 0 {
        None
    } else {
        match first_key(obj.drop_last(), k) {
            Some(i) => Some(i),
            None => if obj.last().0@ == k {
                Some(obj.len() - 1)
            } else {
                None
            },
        }
    }
}

pub proof fn lemma_first_key(obj: Seq<(String, Json)>, k: Seq<char>)
    ensures
        first_key(obj, k) matches Some(j) ==> 0 <= j < obj.len() && obj[j].0@ == k && forall|i: int|
            0 <= i < j ==> obj[i].0@ != k,
        first_key(obj, k) is None ==> forall|i: int| 0 <= i < obj.len() ==> obj[i].0@ != k,
    decreases obj.len(),
{
    if obj.len() > 0 {
        lemma_first_key(obj.drop_last(), k);
        assert forall|i: int| 0 <= i < obj.len() - 1 implies obj.drop_last()[i] == obj[i] by {}
    }
}

pub fn first_key_exec(obj: &Vec<(String, Json)>, k: &String) -> (r: Option<usize>)
    ensures
        r matches Some(j) ==> first_key(obj@, k@) == Some(j as int),
        r is None ==> first_key(obj@, k@) is None,
{
    let mut i: usize = 0;
    while i < obj.len()
        invariant
            i <= obj@.len(),
            forall|a: int| 0 <= a < i ==> obj@[a].0@ != k@,
        decreases obj.len() - i,
    {
        if obj[i].0.eq(k) {
            proof {
                lemma_first_key(obj@, k@);
                if first_key(obj@, k@) is None {
                    assert(obj@[i as int].0@ == k@);
                } else {
                    let j = first_key(obj@, k@)->0;
                    assert(!(j < i));
                    assert(!(i < j));
                }
            }
            return Some(i);
        }
        i += 1;
    }
    proof {
        lemma_first_key(obj@, k@);
        if first_key(obj@, k@) is Some {
            let j = first_key(obj@, k@)->0;
            assert(obj@[j].0@ == k@);
        }
    }
    None
}

/// `10^n`.
pub open spec fn pow10(n: nat) -> int
    decreases n,
{
    if n == 0 {
        1
    } else {
        10 * pow10((n - 1) as nat)
    }
}

pub open spec fn abs(x: int) -> int {
    if x < 0 {
        -x
    } else {
        x
    }
}

/// Whether two decimals lie within `10^-4` of each other.
pub open spec fn within_tolerance(a: Decimal, b: Decimal) -> bool {
    abs(a.mantissa * pow10(b.scale as nat) - b.mantissa * pow10(a.scale as nat)) * 10000 <= pow10(
        (a.scale + b.scale) as nat,
    )
}

/// Structural equality of JSON values as a round trip must keep them: numbers within
/// `10^-4` of each other, strings, booleans and `null` as they are, arrays element by
/// element, objects member by member with members looked up by key (their order does not
/// matter).
pub open spec fn json_equal(a: Json, b: Json) -> bool
    decreases a,
{
    match (a, b) {
        (Json::Null, Json::Null) => true,
        (Json::Bool(x), Json::Bool(y)) => x == y,
        (Json::Number(x), Json::Number(y)) => within_tolerance(x, y),
        (Json::Str(x), Json::Str(y)) => x@ == y@,
        (Json::Array(xs), Json::Array(ys)) => xs@.len() == ys@.len() && forall|i: int|
            0 <= i < xs@.len() ==> json_equal(xs@[i], ys@[i]),
        (Json::Object(xs), Json::Object(ys)) => xs@.len() == ys@.len() && forall|i: int|
            #![trigger xs@[i]]
            0 <= i < xs@.len() ==> match first_key(ys@, xs@[i].0@) {
                Some(j) => json_equal(xs@[i].1, ys@[j].1),
                None => false,
            },
        _ => false,
    }
}

proof fn lemma_pow10_positive(n: nat)
    ensures
        pow10(n) >= 1,
    decreases n,
{
    if n > 0 {
        lemma_pow10_positive((n - 1) as nat);
    }
}

proof fn lemma_pow10_add(a: nat, b: nat)
    ensures
        pow10(a + b) == pow10(a) * pow10(b),
    decreases b,
{
    if b > 0 {
        lemma_pow10_add(a, (b - 1) as nat);
        assert(pow10(a + b) == 10 * pow10((a + b - 1) as nat));
        assert(pow10(a) * pow10(b) == pow10(a) * (10 * pow10((b - 1) as nat)));
        assert(pow10(a) * (10 * pow10((b - 1) as nat)) == 10 * (pow10(a) * pow10(
            (b - 1) as nat,
        ))) by (nonlinear_arith);
    }
}

proof fn lemma_pow10_grows(a: nat, b: nat)
    requires
        a <= b,
    ensures
        pow10(a) <= pow10(b),
    decreases b,
{
    if a < b {
        lemma_pow10_grows(a, (b - 1) as nat);
        lemma_pow10_positive((b - 1) as nat);
    }
}

proof fn lemma_pow10_values()
    ensures
        pow10(3) == 1000,
        pow10(4) == 10000,
        pow10(18) == 1_000_000_000_000_000_000,
        pow10(19) == 10_000_000_000_000_000_000,
        pow10(37) == 10_000_000_000_000_000_000_000_000_000_000_000_000,
        pow10(38) == 100_000_000_000_000_000_000_000_000_000_000_000_000,
{
    reveal_with_fuel(pow10, 39);
}

fn pow10_exec(n: u8) -> (r: i128)
    requires
        n <= 38,
    ensures
        r == pow10(n as nat),
{
    let mut r: i128 = 1;
    let mut i: u8 = 0;
    while i < n
        invariant
            i <= n <= 38,
            r == pow10(i as nat),
        decreases n - i,
    {
        proof {
            lemma_pow10_grows(i as nat, 37);
            lemma_pow10_values();
            lemma_pow10_positive(i as nat);
            assert(r <= 10_000_000_000_000_000_000_000_000_000_000_000_000);
        }
        r = r * 10;
        i += 1;
    }
    r
}

/// For an integer `d`: `|d| * 10^4 <= 10^s` exactly when `d == 0` (for `s < 4`) or
/// `|d| <= 10^(s - 4)`.
proof fn lemma_scaled_bound(d: int, s: nat)
    ensures
        s < 4 ==> (abs(d) * 10000 <= pow10(s) <==> d == 0),
        s >= 4 ==> (abs(d) * 10000 <= pow10(s) <==> abs(d) <= pow10((s - 4) as nat)),
{
    lemma_pow10_values();
    if s < 4 {
        lemma_pow10_grows(s, 3);
        lemma_pow10_positive(s);
        assert(abs(d) * 10000 <= pow10(s) <==> d == 0) by (nonlinear_arith)
            requires
                1 <= pow10(s) <= 1000,
                abs(d) == (if d < 0 {
                    -d
                } else {
                    d
                }),
        ;
    } else {
        lemma_pow10_add((s - 4) as nat, 4);
        let q = pow10((s - 4) as nat);
        assert(abs(d) * 10000 <= q * 10000 <==> abs(d) <= q) by (nonlinear_arith);
    }
}

/// With `sa <= sb`: the tolerance test on `am / 10^sa` and `bm / 10^sb`, written over the
/// common scale `sb`.
proof fn lemma_aligned(am: int, sa: nat, bm: int, sb: nat)
    requires
        sa <= sb,
    ensures
        abs(am * pow10(sb) - bm * pow10(sa)) * 10000 <= pow10(sa + sb) <==> abs(
            am * pow10((sb - sa) as nat) - bm,
        ) * 10000 <= pow10(sb),
{
    let e = (sb - sa) as nat;
    lemma_pow10_add(sa, e);
    lemma_pow10_add(sa, sb);
    lemma_pow10_positive(sa);
    let ps = pow10(sa);
    let pe = pow10(e);
    let x = am * pe - bm;
    assert(am * (ps * pe) - bm * ps == ps * x) by (nonlinear_arith)
        requires
            x == am * pe - bm,
    ;
    assert(abs(ps * x) == ps * abs(x)) by (nonlinear_arith)
        requires
            ps >= 1,
    ;
    assert(ps * abs(x) * 10000 <= ps * pow10(sb) <==> abs(x) * 10000 <= pow10(sb))
        by (nonlinear_arith)
        requires
            ps >= 1,
    ;
}

/// `n * p` lies below `x` for `n <= -1` and above it for `n >= 1`, where `|x| < p`.
proof fn lemma_multiple_vs_small(n: int, p: int, x: int)
    requires
        -p < x < p,
    ensures
        n <= -1 ==> n * p < x,
        n >= 1 ==> n * p > x,
{
    if n <= -1 {
        assert(n * p <= -p) by (nonlinear_arith)
            requires
                n <= -1,
                p > 0,
        ;
    }
    if n >= 1 {
        assert(n * p >= p) by (nonlinear_arith)
            requires
                n >= 1,
                p > 0,
        ;
    }
}

/// The tolerance test with `sa <= sb`, over the common scale `sb`.
fn aligned_close(am: i64, sa: u8, bm: i64, sb: u8) -> (r: bool)
    requires
        sa <= sb,
    ensures
        r == (abs(am * pow10((sb - sa) as nat) - bm) * 10000 <= pow10(sb as nat)),
{
    let e: u8 = sb - sa;
    let ghost x = am * pow10(e as nat) - bm;
    proof {
        lemma_pow10_values();
        lemma_scaled_bound(x, sb as nat);
    }
    if e <= 19 || am == 0 {
        let z: i128 = if am == 0 {
            0
        } else {
            let p = pow10_exec(e);
            proof {
                lemma_pow10_grows(e as nat, 19);
                lemma_pow10_positive(e as nat);
                assert(-92_233_720_368_547_758_080_000_000_000_000_000_000 <= am * p
                    <= 92_233_720_368_547_758_070_000_000_000_000_000_000) by (nonlinear_arith)
                    requires
                        -9_223_372_036_854_775_808 <= am <= 9_223_372_036_854_775_807,
                        1 <= p <= 10_000_000_000_000_000_000,
                ;
            }
            (am as i128) * p
        };
        assert(z == am * pow10(e as nat));
        let d: i128 = z - (bm as i128);
        let mag: i128 = if d < 0 {
            -d
        } else {
            d
        };
        assert(mag == abs(x));
        assert(mag < pow10(38));
        if sb < 4 {
            assert(x == 0 <==> mag == 0);
            mag == 0
        } else if sb - 4 >= 38 {
            proof {
                lemma_pow10_grows(38, (sb - 4) as nat);
            }
            true
        } else {
            let q = pow10_exec(sb - 4);
            mag <= q
        }
    } else if sa < 4 {
        proof {
            // |am * 10^e| >= 10^e while |bm| < 10^19 <= 10^(e-1): far beyond 10^sb / 10^4
            let p = pow10(e as nat);
            let p1 = pow10((e - 1) as nat);
            lemma_pow10_grows(19, (e - 1) as nat);
            lemma_pow10_add((e - 1) as nat, 1);
            lemma_pow10_add(sa as nat, e as nat);
            lemma_pow10_grows(sa as nat, 3);
            lemma_pow10_positive(sa as nat);
            lemma_pow10_add((e - 1) as nat, 4);
            let ps = pow10(sa as nat);
            assert(abs(x) * 10000 > pow10(sb as nat)) by (nonlinear_arith)
                requires
                    x == am * p - bm,
                    am != 0,
                    p == p1 * 10,
                    p1 >= 10_000_000_000_000_000_000,
                    -9_223_372_036_854_775_808 <= bm <= 9_223_372_036_854_775_807,
                    pow10(sb as nat) == ps * p,
                    1 <= ps <= 1000,
                    abs(x) == (if x < 0 {
                        -x
                    } else {
                        x
                    }),
            ;
        }
        false
    } else {
        let k: u8 = sa - 4;
        let ghost p = pow10(e as nat);
        proof {
            // |am * 10^e - bm| * 10^4 <= 10^sb  iff  (am - 10^k) * 10^e <= bm <= (am + 10^k) * 10^e
            lemma_pow10_add(sa as nat, e as nat);
            lemma_pow10_add(k as nat, 4);
            lemma_pow10_add(k as nat, e as nat);
            lemma_pow10_add((k + e) as nat, 4);
            lemma_pow10_grows(20, e as nat);
            lemma_pow10_grows(19, 20);
            let t = pow10(k as nat);
            assert(abs(x) * 10000 <= pow10(sb as nat) <==> abs(x) <= t * p) by (nonlinear_arith)
                requires
                    pow10(sb as nat) == t * p * 10000,
            ;
            assert(abs(x) <= t * p <==> (am - t) * p <= bm && bm <= (am + t) * p)
                by (nonlinear_arith)
                requires
                    x == am * p - bm,
                    abs(x) == (if x < 0 {
                        -x
                    } else {
                        x
                    }),
            ;
        }
        if k >= 19 {
            proof {
                let t = pow10(k as nat);
                lemma_pow10_grows(19, k as nat);
                lemma_multiple_vs_small(am - t, p, bm as int);
                lemma_multiple_vs_small(am + t, p, bm as int);
            }
            true
        } else {
            let t: i128 = pow10_exec(k);
            proof {
                lemma_pow10_grows(k as nat, 18);
                lemma_pow10_values();
                lemma_pow10_positive(k as nat);
                assert(1 <= t <= 1_000_000_000_000_000_000);
            }
            let lo: i128 = (am as i128) - t;
            let hi: i128 = (am as i128) + t;
            proof {
                assert(p >= 10_000_000_000_000_000_000);
                assert(-p < bm < p);
                lemma_multiple_vs_small(lo as int, p, bm as int);
                lemma_multiple_vs_small(hi as int, p, bm as int);
                assert(0 * p == 0);
                assert(lo == am - pow10(k as nat));
                assert(hi == am + pow10(k as nat));
            }
            let lower_ok = lo <= -1 || (lo == 0 && bm >= 0);
            let upper_ok = hi >= 1 || (hi == 0 && bm <= 0);
            assert(lower_ok == ((am - pow10(k as nat)) * p <= bm));
            assert(upper_ok == (bm <= (am + pow10(k as nat)) * p));
            lower_ok && upper_ok
        }
    }
}

/// Whether two numbers lie within `10^-4` of each other.
pub fn numbers_match(a: &Decimal, b: &Decimal) -> (r: bool)
    ensures
        r == within_tolerance(*a, *b),
{
    if a.scale <= b.scale {
        proof {
            lemma_aligned(a.mantissa as int, a.scale as nat, b.mantissa as int, b.scale as nat);
        }
        aligned_close(a.mantissa, a.scale, b.mantissa, b.scale)
    } else {
        proof {
            lemma_aligned(b.mantissa as int, b.scale as nat, a.mantissa as int, a.scale as nat);
            let d = a.mantissa * pow10(b.scale as nat) - b.mantissa * pow10(a.scale as nat);
            assert(abs(d) == abs(-d));
            assert((a.scale + b.scale) as nat == (b.scale + a.scale) as nat);
        }
        aligned_close(b.mantissa, b.scale, a.mantissa, a.scale)
    }
}

fn arrays_equal(xs: &Vec<Json>, ys: &Vec<Json>) -> (r: bool)
    ensures
        r == (xs@.len() == ys@.len() && forall|i: int|
            0 <= i < xs@.len() ==> json_equal(xs@[i], ys@[i])),
    decreases xs,
{
    if xs.len() != ys.len() {
        return false;
    }
    let mut i: usize = 0;
    while i < xs.len()
        invariant
            i <= xs@.len(),
            xs@.len() == ys@.len(),
            forall|k: int| 0 <= k < i ==> json_equal(xs@[k], ys@[k]),
        decreases xs.len() - i,
    {
        assert(decreases_to!(xs => xs@));
        assert(decreases_to!(xs@ => xs@[i as int]));
        if !values_equal(&xs[i], &ys[i]) {
            return false;
        }
        i += 1;
    }
    true
}

fn objects_equal(xs: &Vec<(String, Json)>, ys: &Vec<(String, Json)>) -> (r: bool)
    ensures
        r == (xs@.len() == ys@.len() && forall|i: int|
            #![trigger xs@[i]]
            0 <= i < xs@.len() ==> match first_key(ys@, xs@[i].0@) {
                Some(j) => json_equal(xs@[i].1, ys@[j].1),
                None => false,
            }),
    decreases xs,
{
    if xs.len() != ys.len() {
        return false;
    }
    let mut i: usize = 0;
    while i < xs.len()
        invariant
            i <= xs@.len(),
            xs@.len() == ys@.len(),
            forall|k: int|
                #![trigger xs@[k]]
                0 <= k < i ==> match first_key(ys@, xs@[k].0@) {
                    Some(j) => json_equal(xs@[k].1, ys@[j].1),
                    None => false,
                },
        decreases xs.len() - i,
    {
        match first_key_exec(ys, &xs[i].0) {
            Some(j) => {
                assert(decreases_to!(xs => xs@));
                assert(decreases_to!(xs@ => xs@[i as int]));
                assert(decreases_to!(xs@[i as int] => xs@[i as int].1));
                proof {
                    lemma_first_key(ys@, xs@[i as int].0@);
                }
                if !values_equal(&xs[i].1, &ys[j].1) {
                    return false;
                }
            },
            None => {
                return false;
            },
        }
        i += 1;
    }
    true
}

/// Whether no key occurs twice among `s`'s members.
pub open spec fn distinct_keys(s: Seq<(String, Json)>) -> bool {
    forall|a: int, b: int| 0 <= a < s.len() && 0 <= b < s.len() && a != b ==> s[a].0@ != s[b].0@
}

/// A JSON value as a parser gives it: no object, at any depth, repeats a key.
pub open spec fn json_wf(v: Json) -> bool
    decreases v,
{
    match v {
        Json::Array(xs) => forall|i: int| 0 <= i < xs@.len() ==> json_wf(xs@[i]),
        Json::Object(xs) => distinct_keys(xs@) && forall|i: int|
            0 <= i < xs@.len() ==> json_wf(xs@[i].1),
        _ => true,
    }
}

proof fn lemma_first_key_of_distinct(s: Seq<(String, Json)>, i: int)
    requires
        distinct_keys(s),
        0 <= i < s.len(),
    ensures
        first_key(s, s[i].0@) == Some(i),
{
    lemma_first_key(s, s[i].0@);
}

/// Two objects with distinct keys, of the same size, where every key of `xs` is a key of
/// `ys`: then every key of `ys` is a key of `xs`.
proof fn lemma_keys_cover(xs: Seq<(String, Json)>, ys: Seq<(String, Json)>)
    requires
        distinct_keys(xs),
        distinct_keys(ys),
        xs.len() == ys.len(),
        forall|i: int| 0 <= i < xs.len() ==> (#[trigger] first_key(ys, xs[i].0@)) is Some,
    ensures
        forall|j: int| 0 <= j < ys.len() ==> (#[trigger] first_key(xs, ys[j].0@)) is Some,
{
    let kx = xs.map_values(|e: (String, Json)| e.0@);
    let ky = ys.map_values(|e: (String, Json)| e.0@);
    assert(kx.no_duplicates());
    assert(ky.no_duplicates());
    kx.unique_seq_to_set();
    ky.unique_seq_to_set();
    assert forall|k: Seq<char>| kx.to_set().contains(k) implies ky.to_set().contains(k) by {
        let i = choose|i: int| 0 <= i < kx.len() && kx[i] == k;
        assert(first_key(ys, xs[i].0@) is Some);
        lemma_first_key(ys, xs[i].0@);
        let j = first_key(ys, xs[i].0@)->0;
        assert(ky[j] == k);
    }
    vstd::set_lib::lemma_subset_equality(kx.to_set(), ky.to_set());
    assert forall|j: int| 0 <= j < ys.len() implies (#[trigger] first_key(xs, ys[j].0@)) is Some by {
        assert(ky[j] == ys[j].0@);
        assert(ky.to_set().contains(ky[j]));
        assert(kx.to_set().contains(ky[j]));
        let i = choose|i: int| 0 <= i < kx.len() && kx[i] == ky[j];
        lemma_first_key(xs, ys[j].0@);
        assert(xs[i].0@ == ys[j].0@);
    }
}

/// Structural equality is reflexive on well-formed values.
pub proof fn lemma_json_equal_reflexive(a: Json)
    requires
        json_wf(a),
    ensures
        json_equal(a, a),
    decreases a,
{
    match a {
        Json::Number(x) => {
            lemma_pow10_positive((x.scale + x.scale) as nat);
            assert(x.mantissa * pow10(x.scale as nat) - x.mantissa * pow10(x.scale as nat) == 0);
        },
        Json::Array(xs) => {
            assert forall|i: int| 0 <= i < xs@.len() implies json_equal(xs@[i], xs@[i]) by {
                assert(decreases_to!(a => xs));
                assert(decreases_to!(xs => xs@));
                assert(decreases_to!(xs@ => xs@[i]));
                lemma_json_equal_reflexive(xs@[i]);
            }
        },
        Json::Object(xs) => {
            assert forall|i: int| #![trigger xs@[i]] 0 <= i < xs@.len() implies match first_key(
                xs@,
                xs@[i].0@,
            ) {
                Some(j) => json_equal(xs@[i].1, xs@[j].1),
                None => false,
            } by {
                lemma_first_key_of_distinct(xs@, i);
                assert(decreases_to!(a => xs));
                assert(decreases_to!(xs => xs@));
                assert(decreases_to!(xs@ => xs@[i]));
                assert(decreases_to!(xs@[i] => xs@[i].1));
                lemma_json_equal_reflexive(xs@[i].1);
            }
        },
        _ => {},
    }
}

/// Structural equality is symmetric on well-formed values. (It is not transitive: with
/// the tolerance, `0` matches `0.00006` and `0.00006` matches `0.00012`, but `0` does not
/// match `0.00012`.)
pub proof fn lemma_json_equal_symmetric(a: Json, b: Json)
    requires
        json_wf(a),
        json_wf(b),
        json_equal(a, b),
    ensures
        json_equal(b, a),
    decreases b,
{
    match (a, b) {
        (Json::Number(x), Json::Number(y)) => {
            let d = x.mantissa * pow10(y.scale as nat) - y.mantissa * pow10(x.scale as nat);
            assert(abs(d) == abs(-d));
            assert((x.scale + y.scale) as nat == (y.scale + x.scale) as nat);
        },
        (Json::Array(xs), Json::Array(ys)) => {
            assert forall|i: int| 0 <= i < ys@.len() implies json_equal(ys@[i], xs@[i]) by {
                assert(decreases_to!(b => ys));
                assert(decreases_to!(ys => ys@));
                assert(decreases_to!(ys@ => ys@[i]));
                lemma_json_equal_symmetric(xs@[i], ys@[i]);
            }
        },
        (Json::Object(xs), Json::Object(ys)) => {
            assert forall|i: int| 0 <= i < xs@.len() implies (#[trigger] first_key(
                ys@,
                xs@[i].0@,
            )) is Some by {
                assert(xs@[i] == xs@[i]);
            }
            lemma_keys_cover(xs@, ys@);
            assert forall|j: int| #![trigger ys@[j]] 0 <= j < ys@.len() implies match first_key(
                xs@,
                ys@[j].0@,
            ) {
                Some(i) => json_equal(ys@[j].1, xs@[i].1),
                None => false,
            } by {
                assert(first_key(xs@, ys@[j].0@) is Some);
                lemma_first_key(xs@, ys@[j].0@);
                let i = first_key(xs@, ys@[j].0@)->0;
                assert(xs@[i] == xs@[i]);
                lemma_first_key(ys@, xs@[i].0@);
                let j2 = first_key(ys@, xs@[i].0@)->0;
                assert(ys@[j2].0@ == ys@[j].0@);
                assert(j2 == j);
                assert(decreases_to!(b => ys));
                assert(decreases_to!(ys => ys@));
                assert(decreases_to!(ys@ => ys@[j]));
                assert(decreases_to!(ys@[j] => ys@[j].1));
                lemma_json_equal_symmetric(xs@[i].1, ys@[j].1);
            }
        },
        _ => {},
    }
}

/// Structural equality of two JSON values as a round trip must keep them: numbers within
/// `10^-4` of each other, strings, booleans and `null` as they are, arrays element by
/// element, objects with the same number of members where each member of `a` has a member
/// of `b` under its key with an equal value.
pub fn values_equal(a: &Json, b: &Json) -> (r: bool)
    ensures
        r == json_equal(*a, *b),
    decreases a,
{
    match (a, b) {
        (Json::Null, Json::Null) => true,
        (Json::Bool(x), Json::Bool(y)) => *x == *y,
        (Json::Number(x), Json::Number(y)) => numbers_match(x, y),
        (Json::Str(x), Json::Str(y)) => x.eq(y),
        (Json::Array(xs), Json::Array(ys)) => arrays_equal(xs, ys),
        (Json::Object(xs), Json::Object(ys)) => objects_equal(xs, ys),
        _ => false,
    }
}

/// The text of the `__type` member of an object, where it holds a string.
pub fn type_field(v: &Json) -> (r: Option<String>)
    ensures
        match *v {
            Json::Object(xs) => match first_key(xs@, type_key()) {
                Some(j) => match xs@[j].1 {
                    Json::Str(s) => r matches Some(t) && t@ == s@,
                    _ => r is None,
                },
                None => r is None,
            },
            _ => r is None,
        },
{
    match v {
        Json::Object(xs) => {
            let key = type_key_exec();
            match first_key_exec(xs, &key) {
                Some(j) => {
                    proof {
                        lemma_first_key(xs@, type_key());
                    }
                    match &xs[j].1 {
                        Json::Str(s) => Some(s.clone()),
                        _ => None,
                    }
                },
                None => None,
            }
        },
        _ => None,
    }
}

/// The member that names a fixture's type.
pub open spec fn type_key() -> Seq<char> {
    seq!['_', '_', 't', 'y', 'p', 'e']
}

fn type_key_exec() -> (r: String)
    ensures
        r@ == type_key(),
{
    let cs = vec!['_', '_', 't', 'y', 'p', 'e'];
    crate::text::string_of(cs.as_slice())
}

pub open spec fn is_digit(c: char) -> bool {
    '0' <= c <= '9'
}

/// The number a string of decimal digits denotes.
pub open spec fn digits_value(s: Seq<char>) -> int
    decreases s.len(),
{
    if s.len() == 0 {
        0
    } else {
        digits_value(s.drop_last()) * 10 + (s.last() as int - '0' as int)
    }
}

/// Whether `text` reads `[-]int_part[.frac]`, both parts made of digits, `int_part` not
/// empty and `frac` not empty where the point is written.
pub open spec fn decimal_form(
    text: Seq<char>,
    neg: bool,
    int_part: Seq<char>,
    frac: Seq<char>,
) -> bool {
    &&& int_part.len() > 0
    &&& forall|i: int| 0 <= i < int_part.len() ==> is_digit(#[trigger] int_part[i])
    &&& forall|i: int| 0 <= i < frac.len() ==> is_digit(#[trigger] frac[i])
    &&& text == (if neg {
        seq!['-']
    } else {
        Seq::empty()
    }) + int_part + (if frac.len() > 0 {
        seq!['.'] + frac
    } else {
        Seq::empty()
    })
}

/// Whether `text` is a number `prefix` (of `decimal_form`) followed by an exponent:
/// `mark` (`e` or `E`), an optional sign `exp_sign`, and the digits `exp_digits`.
pub open spec fn exponent_form(
    text: Seq<char>,
    prefix: Seq<char>,
    mark: char,
    exp_sign: Seq<char>,
    exp_digits: Seq<char>,
) -> bool {
    &&& mark == 'e' || mark == 'E'
    &&& exp_sign == Seq::<char>::empty() || exp_sign == seq!['+'] || exp_sign == seq!['-']
    &&& exp_digits.len() > 0
    &&& forall|i: int| 0 <= i < exp_digits.len() ==> is_digit(#[trigger] exp_digits[i])
    &&& text == prefix + seq![mark] + exp_sign + exp_digits
}

/// Whether `d` is the number `sign * digits / 10^frac_len * 10^(+-exp)`, compared exactly.
pub open spec fn denotes(d: Decimal, signed_digits: int, frac_len: nat, exp_neg: bool, exp: nat) -> bool {
    d.mantissa * pow10(frac_len) * (if exp_neg {
        pow10(exp)
    } else {
        1
    }) == signed_digits * pow10(d.scale as nat) * (if exp_neg {
        1
    } else {
        pow10(exp)
    })
}

/// `text` reads `[-]int_part[.frac]` and its digits fit a mantissa and a scale.
pub open spec fn fits_decimal(text: Seq<char>, neg: bool, int_part: Seq<char>, frac: Seq<char>) -> bool {
    &&& decimal_form(text, neg, int_part, frac)
    &&& digits_value(int_part + frac) <= i64::MAX
    &&& frac.len() <= 255
}

proof fn lemma_digits_nonneg(s: Seq<char>)
    requires
        forall|k: int| 0 <= k < s.len() ==> is_digit(#[trigger] s[k]),
    ensures
        digits_value(s) >= 0,
    decreases s.len(),
{
    if s.len() > 0 {
        lemma_digits_nonneg(s.drop_last());
    }
}

/// A string of digits is worth at least any of its prefixes.
proof fn lemma_digits_prefix(x: Seq<char>, j: int)
    requires
        forall|k: int| 0 <= k < x.len() ==> is_digit(#[trigger] x[k]),
        0 <= j <= x.len(),
    ensures
        digits_value(x) >= digits_value(x.subrange(0, j)),
    decreases x.len(),
{
    if j < x.len() {
        let init = x.drop_last();
        lemma_digits_prefix(init, j);
        lemma_digits_nonneg(init);
        assert(init.subrange(0, j) =~= x.subrange(0, j));
    } else {
        assert(x.subrange(0, j) =~= x);
    }
}

/// Where the parts of a number written `[-]int_part[.frac]` stand in its text.
proof fn lemma_form_layout(text: Seq<char>, neg: bool, int_part: Seq<char>, frac: Seq<char>)
    requires
        decimal_form(text, neg, int_part, frac),
    ensures
        ({
            let off: int = if neg {
                1
            } else {
                0
            };
            &&& text.len() == off + int_part.len() + (if frac.len() > 0 {
                1 + frac.len()
            } else {
                0
            })
            &&& neg == (text.len() > 0 && text[0] == '-')
            &&& forall|k: int| 0 <= k < int_part.len() ==> text[off + k] == #[trigger] int_part[k]
            &&& frac.len() > 0 ==> text[off + int_part.len()] == '.'
            &&& forall|k: int|
                0 <= k < frac.len() ==> text[off + int_part.len() + 1 + k] == #[trigger] frac[k]
        }),
{
    let sign: Seq<char> = if neg {
        seq!['-']
    } else {
        Seq::empty()
    };
    let tail: Seq<char> = if frac.len() > 0 {
        seq!['.'] + frac
    } else {
        Seq::empty()
    };
    assert(text == sign + int_part + tail);
    let off: int = if neg {
        1
    } else {
        0
    };
    assert forall|k: int| 0 <= k < int_part.len() implies text[off + k] == #[trigger] int_part[k] by {
        assert((sign + int_part)[off + k] == int_part[k]);
    }
    if frac.len() > 0 {
        assert(text[off + int_part.len()] == tail[0]);
        assert forall|k: int| 0 <= k < frac.len() implies text[off + int_part.len() + 1 + k]
            == #[trigger] frac[k] by {
            assert(text[off + int_part.len() + 1 + k] == tail[1 + k]);
        }
    }
    if !neg {
        assert(text[0] == int_part[0]);
        assert(is_digit(int_part[0]));
    }
}

/// The integer part of a well-formed number is the run of digits after the sign.
proof fn lemma_int_part_len(
    text: Seq<char>,
    neg: bool,
    int_part: Seq<char>,
    frac: Seq<char>,
    start: int,
    int_end: int,
)
    requires
        decimal_form(text, neg, int_part, frac),
        start == (if neg {
            1int
        } else {
            0int
        }),
        start <= int_end <= text.len(),
        forall|k: int| start <= k < int_end ==> is_digit(#[trigger] text[k]),
        int_end == text.len() || !is_digit(text[int_end]),
    ensures
        int_part.len() == int_end - start,
{
    lemma_form_layout(text, neg, int_part, frac);
    if int_part.len() < int_end - start {
        let p = start + int_part.len();
        assert(is_digit(text[p]));
        if frac.len() == 0 {
            assert(text.len() == p);
        }
    } else if int_part.len() > int_end - start {
        assert(text[start + (int_end - start)] == int_part[int_end - start]);
    }
}

/// Reads the characters `cs`, written `[-]digits[.digits]`, as a decimal with its exact
/// value: `Some` exactly for text of that form whose digits fit a mantissa (and at most
/// 255 of them after the point).
#[verifier::rlimit(60)]
#[verifier::spinoff_prover]
fn parse_plain(cs: &Vec<char>) -> (r: Option<Decimal>)
    ensures
        r matches Some(d) ==> exists|neg: bool, int_part: Seq<char>, frac: Seq<char>|
            decimal_form(cs@, neg, int_part, frac) && d.scale == frac.len() && d.mantissa == (
            if neg {
                -1
            } else {
                1
            }) * digits_value(int_part + frac),
        r is None ==> forall|neg: bool, int_part: Seq<char>, frac: Seq<char>|
            !fits_decimal(cs@, neg, int_part, frac),
{
    let n = cs.len();
    let mut i: usize = 0;
    let neg = n > 0 && cs[0] == '-';
    if neg {
        i = 1;
    }
    let start = i;
    let mut m: i64 = 0;
    let ghost mut digs: Seq<char> = Seq::empty();
    while i < n && '0' <= cs[i] && cs[i] <= '9'
        invariant
            neg == (n > 0 && cs@[0] == '-'),
            start == (if neg {
                1usize
            } else {
                0usize
            }),
            start <= i <= n == cs@.len(),
            0 <= m,
            digs == cs@.subrange(start as int, i as int),
            m == digits_value(digs),
            forall|k: int| 0 <= k < digs.len() ==> is_digit(#[trigger] digs[k]),
        decreases n - i,
    {
        let dv = (cs[i] as u32 - '0' as u32) as i64;
        let ghost nd = digs.push(cs@[i as int]);
        assert(nd.drop_last() == digs);
        if m > (i64::MAX - dv) / 10 {
            proof {
                assert(m * 10 + dv > i64::MAX) by (nonlinear_arith)
                    requires
                        m > (i64::MAX - dv) / 10,
                        0 <= dv <= 9,
                ;
                assert(digits_value(nd) == m * 10 + dv);
                assert forall|neg2: bool, ip: Seq<char>, fr: Seq<char>|
                    !fits_decimal(cs@, neg2, ip, fr) by {
                    if fits_decimal(cs@, neg2, ip, fr) {
                        lemma_form_layout(cs@, neg2, ip, fr);
                        let x = ip + fr;
                        if ip.len() <= i - start {
                            let p = start + ip.len();
                            if p < i {
                                assert(digs[p - start] == cs@[p]);
                            }
                            assert(is_digit(cs@[p]));
                            if fr.len() == 0 {
                                assert(cs@.len() == p);
                            }
                        } else {
                            assert forall|k: int| 0 <= k < x.len() implies is_digit(#[trigger] x[k]) by {
                                if k < ip.len() {
                                    assert(x[k] == ip[k]);
                                } else {
                                    assert(x[k] == fr[k - ip.len()]);
                                }
                            }
                            assert forall|k: int| 0 <= k < nd.len() implies x.subrange(
                                0,
                                nd.len() as int,
                            )[k] == #[trigger] nd[k] by {
                                assert(x[k] == ip[k]);
                                assert(cs@[start + k] == ip[k]);
                            }
                            assert(x.subrange(0, nd.len() as int) =~= nd);
                            lemma_digits_prefix(x, nd.len() as int);
                        }
                    }
                }
            }
            return None;
        }
        m = m * 10 + dv;
        proof {
            digs = nd;
        }
        assert(digs =~= cs@.subrange(start as int, i + 1));
        i += 1;
    }
    let int_end = i;
    let ghost int_part = digs;
    assert forall|k: int| start <= k < int_end implies is_digit(#[trigger] cs@[k]) by {
        assert(digs[k - start] == cs@[k]);
    }
    if i == start {
        proof {
            assert forall|neg2: bool, ip: Seq<char>, fr: Seq<char>|
                !fits_decimal(cs@, neg2, ip, fr) by {
                if fits_decimal(cs@, neg2, ip, fr) {
                    lemma_form_layout(cs@, neg2, ip, fr);
                    assert(cs@[start + 0] == ip[0]);
                }
            }
        }
        return None;
    }
    let mut scale: u8 = 0;
    if i < n && cs[i] == '.' {
        i += 1;
        let frac_start = i;
        while i < n && '0' <= cs[i] && cs[i] <= '9'
            invariant
                    neg == (n > 0 && cs@[0] == '-'),
                start == (if neg {
                    1usize
                } else {
                    0usize
                }),
                start < int_end < n == cs@.len(),
                cs@[int_end as int] == '.',
                forall|k: int| start <= k < int_end ==> is_digit(#[trigger] cs@[k]),
                int_part == cs@.subrange(start as int, int_end as int),
                frac_start <= i <= n,
                frac_start == int_end + 1,
                0 <= m,
                scale == i - frac_start,
                digs == int_part + cs@.subrange(frac_start as int, i as int),
                m == digits_value(digs),
                forall|k: int| 0 <= k < digs.len() ==> is_digit(#[trigger] digs[k]),
            decreases n - i,
        {
            let dv = (cs[i] as u32 - '0' as u32) as i64;
            let ghost nd = digs.push(cs@[i as int]);
            assert(nd.drop_last() == digs);
            if m > (i64::MAX - dv) / 10 || scale == 255 {
                proof {
                    assert forall|neg2: bool, ip: Seq<char>, fr: Seq<char>|
                        !fits_decimal(cs@, neg2, ip, fr) by {
                        if fits_decimal(cs@, neg2, ip, fr) {
                            lemma_form_layout(cs@, neg2, ip, fr);
                            lemma_int_part_len(cs@, neg2, ip, fr, start as int, int_end as int);
                            if fr.len() == 0 {
                                assert(cs@.len() == int_end);
                            }
                            assert(fr.len() >= i - frac_start + 1);
                            if m > (i64::MAX - dv) / 10 {
                                assert(m * 10 + dv > i64::MAX) by (nonlinear_arith)
                                    requires
                                        m > (i64::MAX - dv) / 10,
                                        0 <= dv <= 9,
                                ;
                                assert(digits_value(nd) == m * 10 + dv);
                                let x = ip + fr;
                                assert forall|k: int| 0 <= k < x.len() implies is_digit(
                                    #[trigger] x[k],
                                ) by {
                                    if k < ip.len() {
                                        assert(x[k] == ip[k]);
                                    } else {
                                        assert(x[k] == fr[k - ip.len()]);
                                    }
                                }
                                assert forall|k: int| 0 <= k < nd.len() implies x.subrange(
                                    0,
                                    nd.len() as int,
                                )[k] == #[trigger] nd[k] by {
                                    if k < ip.len() {
                                        assert(x[k] == ip[k]);
                                        assert(cs@[start + k] == ip[k]);
                                        assert(int_part[k] == cs@[start + k]);
                                    } else {
                                        let f = k - ip.len();
                                        assert(x[k] == fr[f]);
                                        assert(cs@[start + ip.len() + 1 + f] == fr[f]);
                                        if k < digs.len() {
                                            assert(digs[k] == cs@[frac_start + f]);
                                        }
                                    }
                                }
                                assert(x.subrange(0, nd.len() as int) =~= nd);
                                lemma_digits_prefix(x, nd.len() as int);
                            }
                        }
                    }
                }
                return None;
            }
            m = m * 10 + dv;
            scale = scale + 1;
            proof {
                digs = nd;
            }
            assert(digs =~= int_part + cs@.subrange(frac_start as int, i + 1));
            i += 1;
        }
        if i == frac_start {
            proof {
                assert forall|neg2: bool, ip: Seq<char>, fr: Seq<char>|
                    !fits_decimal(cs@, neg2, ip, fr) by {
                    if fits_decimal(cs@, neg2, ip, fr) {
                        lemma_form_layout(cs@, neg2, ip, fr);
                        lemma_int_part_len(cs@, neg2, ip, fr, start as int, int_end as int);
                        if fr.len() == 0 {
                            assert(cs@.len() == int_end);
                        }
                        assert(cs@[start + ip.len() + 1 + 0] == fr[0]);
                    }
                }
            }
            return None;
        }
        if i != n {
            proof {
                assert forall|neg2: bool, ip: Seq<char>, fr: Seq<char>|
                    !fits_decimal(cs@, neg2, ip, fr) by {
                    if fits_decimal(cs@, neg2, ip, fr) {
                        lemma_form_layout(cs@, neg2, ip, fr);
                        lemma_int_part_len(cs@, neg2, ip, fr, start as int, int_end as int);
                        if fr.len() == 0 {
                            assert(cs@.len() == int_end);
                        }
                        let f = i - frac_start;
                        assert(cs@[start + ip.len() + 1 + f] == fr[f]);
                    }
                }
            }
            return None;
        }
        assert(digs.len() == int_part.len() + scale);
    } else if i != n {
        proof {
            assert forall|neg2: bool, ip: Seq<char>, fr: Seq<char>|
                !fits_decimal(cs@, neg2, ip, fr) by {
                if fits_decimal(cs@, neg2, ip, fr) {
                    lemma_form_layout(cs@, neg2, ip, fr);
                    lemma_int_part_len(cs@, neg2, ip, fr, start as int, int_end as int);
                }
            }
        }
        return None;
    }
    assert(digs.len() == int_part.len() + scale);
    assert(m == digits_value(digs));
    let ghost frac = digs.subrange(int_part.len() as int, digs.len() as int);
    proof {
        assert(digs =~= int_part + frac);
        assert forall|k: int| 0 <= k < frac.len() implies is_digit(#[trigger] frac[k]) by {
            assert(frac[k] == digs[int_part.len() + k]);
        }
        assert forall|k: int| 0 <= k < int_part.len() implies is_digit(#[trigger] int_part[k]) by {
            assert(int_part[k] == digs[k]);
        }
        let sign: Seq<char> = if neg {
            seq!['-']
        } else {
            Seq::empty()
        };
        let tail: Seq<char> = if frac.len() > 0 {
            seq!['.'] + frac
        } else {
            Seq::empty()
        };
        assert(cs@ =~= sign + int_part + tail);
        assert(decimal_form(cs@, neg, int_part, frac));
        assert(digits_value(int_part + frac) == m);
    }
    let mantissa = if neg {
        -m
    } else {
        m
    };
    proof {
        if neg {
            assert(mantissa == -1 * digits_value(int_part + frac));
        } else {
            assert(mantissa == 1 * digits_value(int_part + frac));
        }
    }
    Some(Decimal { mantissa, scale })
}

/// Every character of a number written `[-]int_part[.frac]` is a sign, a point or a digit.
proof fn lemma_form_chars(text: Seq<char>, neg: bool, int_part: Seq<char>, frac: Seq<char>)
    requires
        decimal_form(text, neg, int_part, frac),
    ensures
        forall|i: int|
            0 <= i < text.len() ==> #[trigger] text[i] == '-' || text[i] == '.' || is_digit(text[i]),
{
    lemma_form_layout(text, neg, int_part, frac);
    let off: int = if neg {
        1
    } else {
        0
    };
    assert forall|i: int| 0 <= i < text.len() implies #[trigger] text[i] == '-' || text[i] == '.'
        || is_digit(text[i]) by {
        if i < off {
        } else if i < off + int_part.len() {
            assert(text[off + (i - off)] == int_part[i - off]);
        } else if i > off + int_part.len() {
            let k = i - off - int_part.len() - 1;
            assert(text[off + int_part.len() + 1 + k] == frac[k]);
        }
    }
}

/// Index of the first `e` or `E` in `cs`.
fn find_exponent_mark(cs: &Vec<char>) -> (r: Option<usize>)
    ensures
        r matches Some(k) ==> k < cs@.len() && (cs@[k as int] == 'e' || cs@[k as int] == 'E')
            && forall|i: int| 0 <= i < k ==> cs@[i] != 'e' && cs@[i] != 'E',
        r is None ==> forall|i: int| 0 <= i < cs@.len() ==> cs@[i] != 'e' && cs@[i] != 'E',
{
    let mut i: usize = 0;
    while i < cs.len()
        invariant
            i <= cs@.len(),
            forall|j: int| 0 <= j < i ==> cs@[j] != 'e' && cs@[j] != 'E',
        decreases cs.len() - i,
    {
        if cs[i] == 'e' || cs[i] == 'E' {
            return Some(i);
        }
        i += 1;
    }
    None
}

/// Whether `tail` is an exponent: an optional sign `sign`, then the digits `digits`.
pub open spec fn exponent_tail(tail: Seq<char>, sign: Seq<char>, digits: Seq<char>) -> bool {
    &&& tail == sign + digits
    &&& sign == Seq::<char>::empty() || sign == seq!['+'] || sign == seq!['-']
    &&& digits.len() > 0
    &&& forall|i: int| 0 <= i < digits.len() ==> is_digit(#[trigger] digits[i])
}

/// An exponent splits into its sign and digits in one way only.
proof fn lemma_exponent_tail_unique(
    tail: Seq<char>,
    s1: Seq<char>,
    d1: Seq<char>,
    s2: Seq<char>,
    d2: Seq<char>,
)
    requires
        exponent_tail(tail, s1, d1),
        exponent_tail(tail, s2, d2),
    ensures
        s1 == s2,
        d1 == d2,
{
    if s1.len() == 0 {
        assert(tail[0] == d1[0]);
        if s2.len() > 0 {
            assert(tail[0] == s2[0]);
        }
    } else {
        assert(tail[0] == s1[0]);
        if s2.len() == 0 {
            assert(tail[0] == d2[0]);
        } else {
            assert(tail[0] == s2[0]);
        }
    }
    assert(s1 =~= s2);
    assert(d1 =~= tail.subrange(s1.len() as int, tail.len() as int));
    assert(d2 =~= tail.subrange(s2.len() as int, tail.len() as int));
}

/// Reads an exponent `[+-]digits` from `cs[from..]` to its end: whether it is negative, and
/// its value, or a number above 1000 where it exceeds 1000.
fn read_exponent(cs: &Vec<char>, from: usize) -> (r: Option<(bool, u32)>)
    requires
        from <= cs@.len(),
    ensures
        r matches Some((eneg, ev)) ==> exists|sign: Seq<char>, digits: Seq<char>|
            cs@.subrange(from as int, cs@.len() as int) == sign + digits && (sign
                == Seq::<char>::empty() || sign == seq!['+'] || sign == seq!['-']) && eneg == (sign
                == seq!['-']) && digits.len() > 0 && (forall|i: int|
                0 <= i < digits.len() ==> is_digit(#[trigger] digits[i])) && (ev <= 1000 ==> ev
                == digits_value(digits)) && (ev > 1000 ==> digits_value(digits) > 1000),
        r is None ==> forall|sign: Seq<char>, digits: Seq<char>|
            !exponent_tail(cs@.subrange(from as int, cs@.len() as int), sign, digits),
{
    let n = cs.len();
    let mut i = from;
    let mut eneg = false;
    if i < n && (cs[i] == '-' || cs[i] == '+') {
        eneg = cs[i] == '-';
        i += 1;
    }
    let ds = i;
    let mut ev: u32 = 0;
    let ghost mut digits: Seq<char> = Seq::empty();
    while i < n && '0' <= cs[i] && cs[i] <= '9'
        invariant
            ds <= i <= n == cs@.len(),
            digits == cs@.subrange(ds as int, i as int),
            forall|k: int| 0 <= k < digits.len() ==> is_digit(#[trigger] digits[k]),
            ev <= 10009,
            ev <= 1000 ==> ev == digits_value(digits),
            ev > 1000 ==> digits_value(digits) > 1000,
        decreases n - i,
    {
        let dv = cs[i] as u32 - '0' as u32;
        let ghost nd = digits.push(cs@[i as int]);
        assert(nd.drop_last() == digits);
        proof {
            lemma_digits_nonneg(digits);
        }
        if ev <= 1000 {
            ev = ev * 10 + dv;
        }
        proof {
            digits = nd;
        }
        assert(digits =~= cs@.subrange(ds as int, i + 1));
        i += 1;
    }
    if i == ds || i != n {
        proof {
            let tail = cs@.subrange(from as int, n as int);
            assert forall|sg: Seq<char>, dg: Seq<char>| !exponent_tail(tail, sg, dg) by {
                if exponent_tail(tail, sg, dg) {
                    // the sign was read exactly where there is one
                    if sg.len() > 0 {
                        assert(tail[0] == sg[0]);
                        assert(cs@[from as int] == tail[0]);
                    } else {
                        assert(tail[0] == dg[0]);
                        assert(cs@[from as int] == tail[0]);
                    }
                    assert(ds == from + sg.len());
                    assert(tail.len() == sg.len() + dg.len());
                    assert(n - ds == dg.len());
                    if i < n {
                        assert(cs@[i as int] == tail[i - from]);
                        assert(tail[i - from] == dg[i - ds]);
                    }
                }
            }
        }
        return None;
    }
    let ghost sign = cs@.subrange(from as int, ds as int);
    proof {
        assert(cs@.subrange(from as int, n as int) =~= sign + digits);
        if eneg {
            assert(sign =~= seq!['-']);
        } else if ds > from {
            assert(sign =~= seq!['+']);
            assert(sign[0] != seq!['-'][0]);
        } else {
            assert(sign =~= Seq::<char>::empty());
            assert(sign.len() == 0);
        }
    }
    Some((eneg, ev))
}

/// A number written `[-]int_part[.frac]` splits into its parts in one way only.
proof fn lemma_form_unique(
    text: Seq<char>,
    n1: bool,
    i1: Seq<char>,
    f1: Seq<char>,
    n2: bool,
    i2: Seq<char>,
    f2: Seq<char>,
)
    requires
        decimal_form(text, n1, i1, f1),
        decimal_form(text, n2, i2, f2),
    ensures
        n1 == n2,
        i1 == i2,
        f1 == f2,
{
    lemma_form_layout(text, n1, i1, f1);
    lemma_form_layout(text, n2, i2, f2);
    let off: int = if n1 {
        1
    } else {
        0
    };
    if i1.len() < i2.len() {
        assert(text[off + i1.len()] == i2[i1.len() as int]);
        if f1.len() == 0 {
            assert(text.len() == off + i1.len());
        }
    } else if i2.len() < i1.len() {
        assert(text[off + i2.len()] == i1[i2.len() as int]);
        if f2.len() == 0 {
            assert(text.len() == off + i2.len());
        }
    }
    assert(i1.len() == i2.len());
    assert forall|k: int| 0 <= k < i1.len() implies i1[k] == i2[k] by {
        assert(text[off + k] == i1[k]);
        assert(text[off + k] == i2[k]);
    }
    assert(i1 =~= i2);
    assert(f1.len() == f2.len());
    assert forall|k: int| 0 <= k < f1.len() implies f1[k] == f2[k] by {
        assert(text[off + i1.len() + 1 + k] == f1[k]);
        assert(text[off + i2.len() + 1 + k] == f2[k]);
    }
    assert(f1 =~= f2);
}

/// `a * 10^x == b * 10^y` with `x >= y` gives `a * 10^(x - y) == b`.
proof fn lemma_cancel_pow10(a: int, x: nat, b: int, y: nat)
    requires
        a * pow10(x) == b * pow10(y),
        x >= y,
    ensures
        a * pow10((x - y) as nat) == b,
{
    lemma_pow10_add(y, (x - y) as nat);
    lemma_pow10_positive(y);
    let py = pow10(y);
    let q = pow10((x - y) as nat);
    assert(a * q == b) by (nonlinear_arith)
        requires
            a * (py * q) == b * py,
            py >= 1,
    ;
}

/// A nonzero integer times `10^e`, `e >= 19`, lies outside the range of `i64`.
proof fn lemma_out_of_range(a: int, b: int, e: nat)
    requires
        a == b * pow10(e),
        b != 0,
        e >= 19,
    ensures
        a > 9_223_372_036_854_775_807 || a < -9_223_372_036_854_775_808,
{
    lemma_pow10_grows(19, e);
    lemma_pow10_values();
    let p = pow10(e);
    assert(a >= p || a <= -p) by (nonlinear_arith)
        requires
            a == b * p,
            b != 0,
            p >= 1,
    ;
}

/// No decimal holds a nonzero `m / 10^scale` scaled by `10^(+-ev)` with `ev > 1000`.
proof fn lemma_huge_exponent(m: int, scale: nat, eneg: bool, ev: nat, d: Decimal)
    requires
        m != 0,
        -9_223_372_036_854_775_808 <= m <= 9_223_372_036_854_775_807,
        scale <= 255,
        ev > 1000,
    ensures
        !denotes(d, m, scale, eneg, ev),
{
    if denotes(d, m, scale, eneg, ev) {
        let s = d.scale as nat;
        if eneg {
            lemma_pow10_add(scale, ev);
            assert(d.mantissa * pow10(scale + ev) == m * pow10(s)) by (nonlinear_arith)
                requires
                    d.mantissa * pow10(scale) * pow10(ev) == m * pow10(s) * 1,
                    pow10(scale + ev) == pow10(scale) * pow10(ev),
            ;
            lemma_cancel_pow10(d.mantissa as int, scale + ev, m, s);
            if d.mantissa == 0 {
                assert(0int * pow10((scale + ev - s) as nat) == 0);
            }
            lemma_out_of_range(m, d.mantissa as int, (scale + ev - s) as nat);
        } else {
            lemma_pow10_add(s, ev);
            assert(m * pow10(s + ev) == d.mantissa * pow10(scale)) by (nonlinear_arith)
                requires
                    d.mantissa * pow10(scale) * 1 == m * pow10(s) * pow10(ev),
                    pow10(s + ev) == pow10(s) * pow10(ev),
            ;
            lemma_cancel_pow10(m, s + ev, d.mantissa as int, scale);
            lemma_out_of_range(d.mantissa as int, m, (s + ev - scale) as nat);
        }
    }
}

/// `m / 10^scale`, times `10^-ev` where `eneg` and `10^ev` otherwise, as a decimal; `None`
/// exactly where no decimal holds it.
fn apply_exponent(m: i64, scale: u8, ev: u32, eneg: bool) -> (r: Option<Decimal>)
    requires
        ev <= 1000,
    ensures
        r matches Some(d) ==> denotes(d, m as int, scale as nat, eneg, ev as nat),
        r is None ==> forall|d: Decimal| !denotes(d, m as int, scale as nat, eneg, ev as nat),
        m == 0 ==> r == Some(Decimal { mantissa: 0, scale: 0 }),
{
    proof {
        lemma_pow10_positive(scale as nat);
        lemma_pow10_positive(ev as nat);
    }
    if m == 0 {
        proof {
            let d = Decimal { mantissa: 0, scale: 0 };
            assert(denotes(d, m as int, scale as nat, eneg, ev as nat)) by (nonlinear_arith)
                requires
                    m == 0,
                    d.mantissa == 0,
            ;
        }
        return Some(Decimal { mantissa: 0, scale: 0 });
    }
    if eneg {
        // m / 10^total, with trailing zeros of m taken off while the scale is too large
        let total: u32 = (scale as u32) + ev;
        let mut mm: i64 = m;
        let mut t: u32 = total;
        proof {
            lemma_pow10_add(scale as nat, ev as nat);
        }
        while t > 255 && mm % 10 == 0
            invariant
                t <= total,
                mm != 0,
                m == mm * pow10((total - t) as nat),
            decreases t,
        {
            proof {
                lemma_pow10_add(1, (total - t) as nat);
                reveal_with_fuel(pow10, 2);
                let q = pow10((total - t) as nat);
                assert(m == (mm / 10) * pow10((total - (t - 1)) as nat)) by (nonlinear_arith)
                    requires
                        m == mm * q,
                        mm % 10 == 0,
                        pow10((total - (t - 1)) as nat) == 10 * q,
                ;
                assert(mm / 10 != 0) by (nonlinear_arith)
                    requires
                        mm != 0,
                        mm % 10 == 0,
                ;
            }
            mm = mm / 10;
            t = t - 1;
        }
        if t > 255 {
            proof {
                assert forall|d: Decimal| !denotes(d, m as int, scale as nat, eneg, ev as nat) by {
                    if denotes(d, m as int, scale as nat, eneg, ev as nat) {
                        let s = d.scale as nat;
                        let g = (total - t) as nat;
                        lemma_pow10_add(g, s);
                        lemma_pow10_add(g, t as nat);
                        assert(d.mantissa * pow10(g + t as nat) == mm * pow10(g + s)) by (nonlinear_arith)
                            requires
                                d.mantissa * pow10(scale as nat) * pow10(ev as nat) == m * pow10(s)
                                    * 1,
                                pow10(total as nat) == pow10(scale as nat) * pow10(ev as nat),
                                g + t == total,
                                m == mm * pow10(g),
                                pow10(g + s) == pow10(g) * pow10(s),
                        ;
                        lemma_cancel_pow10(d.mantissa as int, g + t as nat, mm as int, g + s);
                        let e = (t - s) as nat;
                        lemma_pow10_add(1, (e - 1) as nat);
                        reveal_with_fuel(pow10, 2);
                        let q = pow10((e - 1) as nat);
                        assert(mm == (d.mantissa * q) * 10) by (nonlinear_arith)
                            requires
                                d.mantissa * (10 * q) == mm,
                        ;
                        vstd::arithmetic::div_mod::lemma_mod_multiples_basic(d.mantissa * q, 10);
                    }
                }
            }
            return None;
        }
        proof {
            let g = (total - t) as nat;
            lemma_pow10_add(g, t as nat);
            assert(mm * pow10(scale as nat) * pow10(ev as nat) == m * pow10(t as nat) * 1)
                by (nonlinear_arith)
                requires
                    pow10(total as nat) == pow10(scale as nat) * pow10(ev as nat),
                    pow10(total as nat) == pow10(g) * pow10(t as nat),
                    m == mm * pow10(g),
            ;
        }
        return Some(Decimal { mantissa: mm, scale: t as u8 });
    }
    if ev <= scale as u32 {
        let new_scale: u8 = scale - (ev as u8);
        proof {
            lemma_pow10_add(new_scale as nat, ev as nat);
            assert(m * pow10(scale as nat) * 1 == m * pow10(new_scale as nat) * pow10(ev as nat))
                by (nonlinear_arith)
                requires
                    pow10(scale as nat) == pow10(new_scale as nat) * pow10(ev as nat),
            ;
        }
        return Some(Decimal { mantissa: m, scale: new_scale });
    }
    let k: u32 = ev - (scale as u32);
    if k > 18 {
        proof {
            assert forall|d: Decimal| !denotes(d, m as int, scale as nat, eneg, ev as nat) by {
                if denotes(d, m as int, scale as nat, eneg, ev as nat) {
                    let s = d.scale as nat;
                    lemma_pow10_add(s, ev as nat);
                    assert(m * pow10(s + ev as nat) == d.mantissa * pow10(scale as nat)) by (nonlinear_arith)
                        requires
                            d.mantissa * pow10(scale as nat) * 1 == m * pow10(s) * pow10(ev as nat),
                            pow10(s + ev as nat) == pow10(s) * pow10(ev as nat),
                    ;
                    lemma_cancel_pow10(m as int, s + ev as nat, d.mantissa as int, scale as nat);
                    lemma_out_of_range(d.mantissa as int, m as int, (s + ev - scale) as nat);
                }
            }
        }
        return None;
    }
    let p = pow10_exec(k as u8);
    proof {
        lemma_pow10_grows(k as nat, 18);
        lemma_pow10_values();
        lemma_pow10_positive(k as nat);
        assert(-9_223_372_036_854_775_808 * 1_000_000_000_000_000_000 <= (m as int) * p
            <= 9_223_372_036_854_775_807 * 1_000_000_000_000_000_000) by (nonlinear_arith)
            requires
                -9_223_372_036_854_775_808 <= m <= 9_223_372_036_854_775_807,
                1 <= p <= 1_000_000_000_000_000_000,
        ;
        lemma_pow10_add(k as nat, scale as nat);
        assert(ev as nat == k as nat + scale as nat);
    }
    let prod: i128 = (m as i128) * p;
    if prod > 9_223_372_036_854_775_807 || prod < -9_223_372_036_854_775_808 {
        proof {
            assert forall|d: Decimal| !denotes(d, m as int, scale as nat, eneg, ev as nat) by {
                if denotes(d, m as int, scale as nat, eneg, ev as nat) {
                    let s = d.scale as nat;
                    lemma_pow10_add(s, ev as nat);
                    lemma_pow10_add(s, k as nat);
                    lemma_pow10_add(s + k as nat, scale as nat);
                    assert(m * pow10(s + ev as nat) == d.mantissa * pow10(scale as nat)) by (nonlinear_arith)
                        requires
                            d.mantissa * pow10(scale as nat) * 1 == m * pow10(s) * pow10(ev as nat),
                            pow10(s + ev as nat) == pow10(s) * pow10(ev as nat),
                    ;
                    lemma_cancel_pow10(m as int, s + ev as nat, d.mantissa as int, scale as nat);
                    assert((s + ev - scale) as nat == s + k as nat);
                    lemma_pow10_positive(s);
                    let ps = pow10(s);
                    assert(d.mantissa == prod * ps) by (nonlinear_arith)
                        requires
                            d.mantissa == m * pow10(s + k as nat),
                            pow10(s + k as nat) == ps * p,
                            prod == m * p,
                    ;
                    assert(d.mantissa >= prod || d.mantissa <= prod) by (nonlinear_arith)
                        requires
                            d.mantissa == prod * ps,
                            ps >= 1,
                    ;
                    assert(prod > 0 ==> d.mantissa >= prod) by (nonlinear_arith)
                        requires
                            d.mantissa == prod * ps,
                            ps >= 1,
                    ;
                    assert(prod < 0 ==> d.mantissa <= prod) by (nonlinear_arith)
                        requires
                            d.mantissa == prod * ps,
                            ps >= 1,
                    ;
                }
            }
        }
        return None;
    }
    let mantissa = prod as i64;
    proof {
        assert(mantissa * pow10(scale as nat) * 1 == m * pow10(0) * pow10(ev as nat)) by (nonlinear_arith)
            requires
                mantissa == m * p,
                pow10(ev as nat) == p * pow10(scale as nat),
                pow10(0) == 1,
        ;
    }
    Some(Decimal { mantissa, scale: 0 })
}

/// The value of the digits `int_part` and `frac` read as one integer, negated where `neg`.
pub open spec fn signed_value(neg: bool, int_part: Seq<char>, frac: Seq<char>) -> int {
    (if neg {
        -1int
    } else {
        1int
    }) * digits_value(int_part + frac)
}

/// Whether `d` holds the value of `[-]int_part[.frac]` times `10^(+-exp_digits)`.
pub open spec fn exponent_value_held(
    d: Decimal,
    neg: bool,
    int_part: Seq<char>,
    frac: Seq<char>,
    exp_sign: Seq<char>,
    exp_digits: Seq<char>,
) -> bool {
    denotes(
        d,
        signed_value(neg, int_part, frac),
        frac.len(),
        exp_sign == seq!['-'],
        digits_value(exp_digits) as nat,
    )
}

/// No decimal holds the value of `text` read as a number with an exponent, whatever way it
/// splits into a `[-]digits[.digits]` part whose digits fit a mantissa and an exponent.
pub open spec fn exponent_value_unheld(text: Seq<char>) -> bool {
    forall|
        prefix: Seq<char>,
        neg: bool,
        int_part: Seq<char>,
        frac: Seq<char>,
        mark: char,
        exp_sign: Seq<char>,
        exp_digits: Seq<char>,
        d: Decimal,
    |
        #![trigger exponent_form(text, prefix, mark, exp_sign, exp_digits), fits_decimal(prefix, neg, int_part, frac), exponent_value_held(d, neg, int_part, frac, exp_sign, exp_digits)]
        exponent_form(text, prefix, mark, exp_sign, exp_digits) && fits_decimal(
            prefix,
            neg,
            int_part,
            frac,
                ) ==> !exponent_value_held(d, neg, int_part, frac, exp_sign, exp_digits)
}

/// A number with an exponent splits at its first `e` or `E`.
proof fn lemma_exponent_split(
    text: Seq<char>,
    k: int,
    prefix: Seq<char>,
    neg: bool,
    int_part: Seq<char>,
    frac: Seq<char>,
    mark: char,
    exp_sign: Seq<char>,
    exp_digits: Seq<char>,
)
    requires
        exponent_form(text, prefix, mark, exp_sign, exp_digits),
        decimal_form(prefix, neg, int_part, frac),
        0 <= k < text.len(),
        text[k] == 'e' || text[k] == 'E',
        forall|i: int| 0 <= i < k ==> text[i] != 'e' && text[i] != 'E',
    ensures
        prefix == text.subrange(0, k),
        exponent_tail(text.subrange(k + 1, text.len() as int), exp_sign, exp_digits),
{
    lemma_form_chars(prefix, neg, int_part, frac);
    assert(text[prefix.len() as int] == mark);
    if prefix.len() > k {
        assert(text[k] == prefix[k]);
    }
    if prefix.len() < k {
        assert(text[prefix.len() as int] == mark);
    }
    assert(prefix.len() == k);
    assert(prefix =~= text.subrange(0, k));
    assert(text.subrange(k + 1, text.len() as int) =~= exp_sign + exp_digits);
}

/// Reads a JSON number as a decimal with its exact value. For text written
/// `[-]digits[.digits]`, `Some` comes exactly where the digits fit a mantissa (and at most
/// 255 of them follow the point). Text with an exponent `e`/`E` `[+-]digits` after such a
/// number gives the value it denotes; `None` comes there only where no decimal holds that
/// value.
#[verifier::rlimit(60)]
#[verifier::spinoff_prover]
pub fn parse_decimal(text: &str) -> (r: Option<Decimal>)
    ensures
        r matches Some(d) ==> (exists|neg: bool, int_part: Seq<char>, frac: Seq<char>|
            decimal_form(text@, neg, int_part, frac) && d.scale == frac.len() && d.mantissa == (
            if neg {
                -1
            } else {
                1
            }) * digits_value(int_part + frac)) || (exists|
            prefix: Seq<char>,
            neg: bool,
            int_part: Seq<char>,
            frac: Seq<char>,
            mark: char,
            exp_sign: Seq<char>,
            exp_digits: Seq<char>,
        |
            exponent_form(text@, prefix, mark, exp_sign, exp_digits) && decimal_form(
                prefix,
                neg,
                int_part,
                frac,
            ) && denotes(
                d,
                (if neg {
                    -1
                } else {
                    1
                }) * digits_value(int_part + frac),
                frac.len(),
                exp_sign == seq!['-'],
                digits_value(exp_digits) as nat,
            )),
        r is None ==> forall|neg: bool, int_part: Seq<char>, frac: Seq<char>|
            !fits_decimal(text@, neg, int_part, frac),
        r is None ==> exponent_value_unheld(text@),
{
    let cs = crate::text::chars_of(text);
    match find_exponent_mark(&cs) {
        None => {
            proof {
                assert forall|prefix: Seq<char>, mark: char, es: Seq<char>, ed: Seq<char>|
                    !exponent_form(text@, prefix, mark, es, ed) by {
                    if exponent_form(text@, prefix, mark, es, ed) {
                        assert(text@[prefix.len() as int] == mark);
                    }
                }
            }
            parse_plain(&cs)
        },
        Some(k) => {
            let n = cs.len();
            assert(k < n);
            proof {
                assert forall|neg: bool, ip: Seq<char>, fr: Seq<char>|
                    !fits_decimal(text@, neg, ip, fr) by {
                    if fits_decimal(text@, neg, ip, fr) {
                        lemma_form_chars(text@, neg, ip, fr);
                        assert(text@[k as int] == cs@[k as int]);
                    }
                }
            }
            let mut pre: Vec<char> = Vec::new();
            let mut i: usize = 0;
            while i < k
                invariant
                    i <= k < cs@.len(),
                    pre@ == cs@.subrange(0, i as int),
                decreases k - i,
            {
                pre.push(cs[i]);
                assert(pre@ =~= cs@.subrange(0, i + 1));
                i += 1;
            }
            assert(pre@ == text@.subrange(0, k as int));
            let d0 = match parse_plain(&pre) {
                Some(d0) => d0,
                None => {
                    proof {
                        assert forall|
                            prefix: Seq<char>,
                            neg: bool,
                            ip: Seq<char>,
                            fr: Seq<char>,
                            mark: char,
                            es: Seq<char>,
                            ed: Seq<char>,
                        | !(exponent_form(text@, prefix, mark, es, ed) && fits_decimal(
                            prefix,
                            neg,
                            ip,
                            fr,
                        )) by {
                            if exponent_form(text@, prefix, mark, es, ed) && fits_decimal(
                                prefix,
                                neg,
                                ip,
                                fr,
                            ) {
                                lemma_exponent_split(text@, k as int, prefix, neg, ip, fr, mark, es, ed);
                            }
                        }
                    }
                    return None;
                },
            };
            let ghost (neg0, ip0, fr0) = choose|neg: bool, ip: Seq<char>, fr: Seq<char>|
                decimal_form(pre@, neg, ip, fr) && d0.scale == fr.len() && d0.mantissa == (if neg {
                    -1
                } else {
                    1
                }) * digits_value(ip + fr);
            let (eneg, ev) = match read_exponent(&cs, k + 1) {
                Some(x) => x,
                None => {
                    proof {
                        assert forall|
                            prefix: Seq<char>,
                            neg: bool,
                            ip: Seq<char>,
                            fr: Seq<char>,
                            mark: char,
                            es: Seq<char>,
                            ed: Seq<char>,
                        | !(exponent_form(text@, prefix, mark, es, ed) && fits_decimal(
                            prefix,
                            neg,
                            ip,
                            fr,
                        )) by {
                            if exponent_form(text@, prefix, mark, es, ed) && fits_decimal(
                                prefix,
                                neg,
                                ip,
                                fr,
                            ) {
                                lemma_exponent_split(text@, k as int, prefix, neg, ip, fr, mark, es, ed);
                            }
                        }
                    }
                    return None;
                },
            };
            let ghost (sign0, digits0) = choose|sign: Seq<char>, digits: Seq<char>|
                cs@.subrange(k + 1, cs@.len() as int) == sign + digits && (sign
                    == Seq::<char>::empty() || sign == seq!['+'] || sign == seq!['-']) && eneg == (
                sign == seq!['-']) && digits.len() > 0 && (forall|i: int|
                    0 <= i < digits.len() ==> is_digit(#[trigger] digits[i])) && (ev <= 1000 ==> ev
                    == digits_value(digits)) && (ev > 1000 ==> digits_value(digits) > 1000);
            proof {
                assert(exponent_tail(cs@.subrange(k + 1, cs@.len() as int), sign0, digits0));
            }
            if ev > 1000 && d0.mantissa != 0 {
                proof {
                    assert forall|
                        prefix: Seq<char>,
                        neg: bool,
                        ip: Seq<char>,
                        fr: Seq<char>,
                        mark: char,
                        es: Seq<char>,
                        ed: Seq<char>,
                        d: Decimal,
                    | exponent_form(text@, prefix, mark, es, ed) && fits_decimal(prefix, neg, ip, fr)
                        implies !exponent_value_held(d, neg, ip, fr, es, ed) by {
                        lemma_exponent_split(text@, k as int, prefix, neg, ip, fr, mark, es, ed);
                        lemma_form_unique(pre@, neg, ip, fr, neg0, ip0, fr0);
                        lemma_exponent_tail_unique(
                            cs@.subrange(k + 1, cs@.len() as int),
                            es,
                            ed,
                            sign0,
                            digits0,
                        );
                        lemma_huge_exponent(
                            d0.mantissa as int,
                            d0.scale as nat,
                            es == seq!['-'],
                            digits_value(ed) as nat,
                            d,
                        );
                    }
                }
                return None;
            }
            let r = apply_exponent(
                d0.mantissa,
                d0.scale,
                if ev > 1000 {
                    0
                } else {
                    ev
                },
                eneg,
            );
            proof {
                if r is None {
                    assert(ev <= 1000);
                    assert forall|
                        prefix: Seq<char>,
                        neg: bool,
                        ip: Seq<char>,
                        fr: Seq<char>,
                        mark: char,
                        es: Seq<char>,
                        ed: Seq<char>,
                        d: Decimal,
                    | exponent_form(text@, prefix, mark, es, ed) && fits_decimal(prefix, neg, ip, fr)
                        implies !exponent_value_held(d, neg, ip, fr, es, ed) by {
                        lemma_exponent_split(text@, k as int, prefix, neg, ip, fr, mark, es, ed);
                        lemma_form_unique(pre@, neg, ip, fr, neg0, ip0, fr0);
                        lemma_exponent_tail_unique(
                            cs@.subrange(k + 1, cs@.len() as int),
                            es,
                            ed,
                            sign0,
                            digits0,
                        );
                    }
                }
                if let Some(d) = r {
                    let (neg, ip, fr) = choose|neg: bool, ip: Seq<char>, fr: Seq<char>|
                        decimal_form(pre@, neg, ip, fr) && d0.scale == fr.len() && d0.mantissa == (
                        if neg {
                            -1
                        } else {
                            1
                        }) * digits_value(ip + fr);
                    let (sign, digits) = choose|sign: Seq<char>, digits: Seq<char>|
                        cs@.subrange(k + 1, cs@.len() as int) == sign + digits && (sign
                            == Seq::<char>::empty() || sign == seq!['+'] || sign == seq!['-'])
                            && eneg == (sign == seq!['-']) && digits.len() > 0 && (forall|i: int|
                            0 <= i < digits.len() ==> is_digit(#[trigger] digits[i])) && (ev <= 1000
                            ==> ev == digits_value(digits)) && (ev > 1000 ==> digits_value(digits)
                            > 1000);
                    let mark = cs@[k as int];
                    assert(text@ =~= pre@ + seq![mark] + sign + digits) by {
                        assert(cs@ =~= cs@.subrange(0, k as int) + seq![mark] + cs@.subrange(
                            k + 1,
                            cs@.len() as int,
                        ));
                    }
                    if ev > 1000 {
                        assert(d0.mantissa == 0);
                        assert(denotes(d, d0.mantissa as int, fr.len(), eneg, digits_value(digits) as nat))
                            by (nonlinear_arith)
                            requires
                                d0.mantissa == 0,
                                d.mantissa == 0,
                        ;
                    }
                    assert(exponent_form(text@, pre@, mark, sign, digits));
                    assert(denotes(
                        d,
                        (if neg {
                            -1
                        } else {
                            1
                        }) * digits_value(ip + fr),
                        fr.len(),
                        sign == seq!['-'],
                        digits_value(digits) as nat,
                    ));
                }
            }
            r
        },
    }
}

} // verus!
