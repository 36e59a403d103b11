//! The random source of the generator and the mutator, and the random
//! values drawn from it.

use vstd::prelude::*;
use crate::text::push_char;

verus! {

#[verifier::external_type_specification]
#[verifier::external_body]
pub struct ExXorShiftRng(rand_xorshift::XorShiftRng);

#[verifier::external_type_specification]
#[verifier::external_body]
pub struct ExRandRegex(rand_regex::Regex);

#[verifier::external_type_specification]
#[verifier::external_body]
pub struct ExRandRegexError(rand_regex::Error);

/// A seeded pseudo-random generator (xorshift). What it draws is fixed by
/// its seed and the draws made since; its view records both.
pub struct Rng {
    inner: rand_xorshift::XorShiftRng,
    seed: Ghost<u64>,
    draws: Ghost<Seq<Draw>>,
}

/// One use of a generator.
pub enum Draw {
    /// A number drawn uniformly from `low..high`.
    Uniform(u64, u64),
    /// A whole `u64`.
    Next,
    /// A shuffle of that many elements.
    Shuffle(nat),
    /// A string sampled from a pattern.
    Sample(Seq<char>),
}

/// The state of a generator: the seed it was made from and the draws made
/// since, in order.
pub struct RngState {
    pub seed: u64,
    pub draws: Seq<Draw>,
}

impl RngState {
    /// The state after one more draw.
    pub open spec fn after(self, d: Draw) -> RngState {
        RngState { seed: self.seed, draws: self.draws.push(d) }
    }
}

impl View for Rng {
    type V = RngState;

    closed spec fn view(&self) -> RngState {
        RngState { seed: self.seed@, draws: self.draws@ }
    }
}

/// The number that `gen_range(low..high)` gives on a generator in the
/// given state.
pub uninterp spec fn xorshift_uniform(state: RngState, low: u64, high: u64) -> u64;

/// The number that `next_u64` gives on a generator in the given state.
pub uninterp spec fn xorshift_next(state: RngState) -> u64;

/// The order in which a shuffle of `n` elements on a generator in the given
/// state leaves them: position `i` receives the element from position
/// `order[i]`.
pub uninterp spec fn xorshift_shuffle(state: RngState, n: nat) -> Seq<int>;

/// The elements of `s` taken in the given order.
pub open spec fn reordered<T>(s: Seq<T>, order: Seq<int>) -> Seq<T> {
    Seq::new(order.len(), |i: int| s[order[i]])
}

/// The number `gen_range(low..high)` gives on a generator in state `h`: the
/// low end plus a draw below the width of the range.
pub open spec fn range_draw(h: RngState, low: int, high: int) -> int {
    low + xorshift_uniform(h, 0, (high - low) as u64)
}

/// The state after `gen_range(low..high)`.
pub open spec fn range_state(h: RngState, low: int, high: int) -> RngState {
    h.after(Draw::Uniform(0, (high - low) as u64))
}

/// `rand_xorshift::XorShiftRng::seed_from_u64`: a generator seeded from a
/// number. What it then produces is not stated.
#[verifier::external_body]
fn xorshift_from_seed(seed: u64) -> rand_xorshift::XorShiftRng {
    <rand_xorshift::XorShiftRng as ::rand::SeedableRng>::seed_from_u64(seed)
}

/// `rand::RngCore::next_u64` on the operating system's random source: a
/// random number, of which nothing is promised.
#[verifier::external_body]
fn os_random_u64() -> u64 {
    ::rand::RngCore::next_u64(&mut ::rand::rngs::OsRng)
}

/// `rand::Rng::gen_range` on `low..high`: a number drawn uniformly from the
/// range. It panics on an empty range, which `requires` rules out. The
/// generator is deterministic, so the number is named by its state, and
/// the draw is recorded.
#[verifier::external_body]
fn uniform_u64(rng: &mut Rng, low: u64, high: u64) -> (r: u64)
    requires
        low < high,
    ensures
        low <= r < high,
        r == xorshift_uniform(old(rng)@, low, high),
        final(rng)@ == old(rng)@.after(Draw::Uniform(low, high)),
{
    ::rand::Rng::gen_range(&mut rng.inner, low..high)
}

/// `rand::RngCore::next_u64`: the generator's next number, named by its
/// state; the draw is recorded.
#[verifier::external_body]
fn next_u64(rng: &mut Rng) -> (r: u64)
    ensures
        r == xorshift_next(old(rng)@),
        final(rng)@ == old(rng)@.after(Draw::Next),
{
    ::rand::RngCore::next_u64(&mut rng.inner)
}

/// `rand::seq::SliceRandom::shuffle`: puts the elements in the order the
/// generator's state names, a permutation of the positions, so the same
/// elements remain; the shuffle is recorded.
#[verifier::external_body]
fn shuffle_slice<T>(rng: &mut Rng, values: &mut Vec<T>)
    ensures
        final(values)@ == reordered(old(values)@, xorshift_shuffle(old(rng)@, old(values)@.len())),
        forall|i: int|
            0 <= i < old(values)@.len() ==> 0 <= #[trigger] xorshift_shuffle(old(rng)@, old(values)@.len())[i]
                < old(values)@.len(),
        final(values)@.to_multiset() == old(values)@.to_multiset(),
        final(values)@.len() == old(values)@.len(),
        final(rng)@ == old(rng)@.after(Draw::Shuffle(old(values)@.len())),
{
    ::rand::seq::SliceRandom::shuffle(values.as_mut_slice(), &mut rng.inner)
}

/// Whether `rand_regex::Regex::compile` accepts the pattern (with at most
/// 25 extra repetitions).
pub uninterp spec fn rand_regex_compiles(pattern: Seq<char>) -> bool;

/// The bound on the repetition weight of the patterns given to `rand_regex`.
pub open spec fn weight_limit() -> int {
    0xffff_ffff
}

/// Whether `c` is a decimal digit.
pub open spec fn is_digit(c: char) -> bool {
    '0' <= c <= '9'
}

/// The value of a decimal digit.
pub open spec fn digit_value(c: char) -> int {
    (c as u32) - 48
}

/// The state of the scan of a pattern's repetition operators, as
/// (no excess so far, mode, weight, first count, second count). The mode is
/// 0 outside braces, 1 just after `{`, 2 in the first count, 3 just after
/// the comma, 4 in the second count.
pub type RepScan = (bool, int, int, int, int);

/// The scan after the weight is multiplied by `f` and a brace closes.
pub open spec fn rep_mul(st: RepScan, f: int) -> RepScan {
    if st.2 * f > weight_limit() {
        (false, 0, st.2, 0, 0)
    } else {
        (true, 0, st.2 * f, 0, 0)
    }
}

/// The count `v` followed by the digit `c`, or no excess left when it
/// passes the bound.
pub open spec fn rep_grow(v: int, c: char) -> int {
    v * 10 + digit_value(c)
}

/// One step of the scan: `*` and `+` weigh 26 (one plus the 25 extra
/// repetitions), a brace group `{a}`, `{a,}` or `{a,b}` weighs `a`,
/// `a + 25` or `b` (at least 1); a `{` that does not open such a group, or
/// a count or weight above [`weight_limit`], ends the scan with an excess.
pub open spec fn rep_step(st: RepScan, c: char) -> RepScan {
    let (ok, mode, prod, a, b) = st;
    if !ok {
        st
    } else if mode == 0 {
        if c == '*' || c == '+' {
            rep_mul(st, 26)
        } else if c == '{' {
            (true, 1, prod, 0, 0)
        } else {
            st
        }
    } else if mode == 1 {
        if is_digit(c) {
            (true, 2, prod, digit_value(c), 0)
        } else {
            (false, 0, prod, 0, 0)
        }
    } else if mode == 2 {
        if is_digit(c) {
            if rep_grow(a, c) > weight_limit() {
                (false, 0, prod, 0, 0)
            } else {
                (true, 2, prod, rep_grow(a, c), 0)
            }
        } else if c == ',' {
            (true, 3, prod, a, 0)
        } else if c == '}' {
            rep_mul(st, if a == 0 { 1 } else { a })
        } else {
            (false, 0, prod, 0, 0)
        }
    } else if mode == 3 {
        if is_digit(c) {
            (true, 4, prod, a, digit_value(c))
        } else if c == '}' {
            rep_mul(st, a + 25)
        } else {
            (false, 0, prod, 0, 0)
        }
    } else {
        if is_digit(c) {
            if rep_grow(b, c) > weight_limit() {
                (false, 0, prod, 0, 0)
            } else {
                (true, 4, prod, a, rep_grow(b, c))
            }
        } else if c == '}' {
            rep_mul(st, if b == 0 { 1 } else { b })
        } else {
            (false, 0, prod, 0, 0)
        }
    }
}

/// The scan of the whole text, from weight 1.
pub open spec fn rep_scan(t: Seq<char>) -> RepScan
    decreases t.len(),
{
    if t.len() == 0 {
        (true, 0, 1, 0, 0)
    } else {
        rep_step(rep_scan(t.drop_last()), t.last())
    }
}

/// Whether the pattern's repetitions stay small enough for `rand_regex` to
/// compile it without an arithmetic overflow: every brace group is a
/// plain count, and the product of the weights of all repetition
/// operators (see [`rep_step`]), times four bytes for each character of the
/// pattern and one more, stays within [`weight_limit`]. Nested repetitions
/// multiply their bounds, and this product bounds every such nesting, so
/// the repetition counts, their sums with the 25 extra repetitions, and the
/// byte capacity `rand_regex` computes all stay within `u32`.
pub open spec fn repetitions_fit(t: Seq<char>) -> bool {
    let st = rep_scan(t);
    st.0 && st.1 == 0 && st.2 * 4 * (t.len() + 1) <= weight_limit()
}

/// Whether the generator can be built from the pattern: its repetitions fit
/// and `rand_regex` accepts it.
pub open spec fn pattern_usable(t: Seq<char>) -> bool {
    repetitions_fit(t) && rand_regex_compiles(t)
}

/// Whether the pattern's repetitions fit (see [`repetitions_fit`]).
pub fn check_repetitions(pattern: &str) -> (b: bool)
    ensures
        b == repetitions_fit(pattern@),
{
    let n = pattern.unicode_len();
    let mut ok = true;
    let mut mode: u8 = 0;
    let mut prod: u128 = 1;
    let mut a: u128 = 0;
    let mut b: u128 = 0;
    let mut i: usize = 0;
    while i < n
        invariant
            n == pattern@.len(),
            i <= n,
            rep_scan(pattern@.take(i as int)) == (ok, mode as int, prod as int, a as int, b as int),
            prod <= weight_limit(),
            a <= weight_limit(),
            b <= weight_limit(),
            mode <= 4,
        decreases n - i,
    {
        let c = pattern.get_char(i);
        proof {
            assert(pattern@.take(i + 1).drop_last() =~= pattern@.take(i as int));
            assert(pattern@.take(i + 1).last() == c);
        }
        let digit = '0' <= c && c <= '9';
        let d: u128 = if digit { (c as u32 - 48) as u128 } else { 0 };
        if ok {
            if mode == 0 {
                if c == '*' || c == '+' {
                    if prod * 26 > 0xffff_ffff {
                        ok = false;
                    } else {
                        prod = prod * 26;
                    }
                    a = 0;
                    b = 0;
                } else if c == '{' {
                    mode = 1;
                    a = 0;
                    b = 0;
                }
            } else if mode == 1 {
                if digit {
                    mode = 2;
                    a = d;
                } else {
                    ok = false;
                    mode = 0;
                    a = 0;
                }
                b = 0;
            } else if mode == 2 {
                if digit {
                    if a * 10 + d > 0xffff_ffff {
                        ok = false;
                        mode = 0;
                        a = 0;
                    } else {
                        a = a * 10 + d;
                    }
                    b = 0;
                } else if c == ',' {
                    mode = 3;
                    b = 0;
                } else if c == '}' {
                    let f: u128 = if a == 0 { 1 } else { a };
                    assert(prod * f <= 0xffff_ffff * 0xffff_ffff) by (nonlinear_arith)
                        requires
                            prod <= 0xffff_ffff,
                            f <= 0xffff_ffff,
                    ;
                    if prod * f > 0xffff_ffff {
                        ok = false;
                    } else {
                        prod = prod * f;
                    }
                    mode = 0;
                    a = 0;
                    b = 0;
                } else {
                    ok = false;
                    mode = 0;
                    a = 0;
                    b = 0;
                }
            } else if mode == 3 {
                if digit {
                    mode = 4;
                    b = d;
                } else if c == '}' {
                    assert(prod * (a + 25) <= 0xffff_ffff * 0x1_0000_0018) by (nonlinear_arith)
                        requires
                            prod <= 0xffff_ffff,
                            a <= 0xffff_ffff,
                    ;
                    if prod * (a + 25) > 0xffff_ffff {
                        ok = false;
                    } else {
                        prod = prod * (a + 25);
                    }
                    mode = 0;
                    a = 0;
                    b = 0;
                } else {
                    ok = false;
                    mode = 0;
                    a = 0;
                    b = 0;
                }
            } else {
                if digit {
                    if b * 10 + d > 0xffff_ffff {
                        ok = false;
                        mode = 0;
                        a = 0;
                        b = 0;
                    } else {
                        b = b * 10 + d;
                    }
                } else if c == '}' {
                    let f: u128 = if b == 0 { 1 } else { b };
                    assert(prod * f <= 0xffff_ffff * 0xffff_ffff) by (nonlinear_arith)
                        requires
                            prod <= 0xffff_ffff,
                            f <= 0xffff_ffff,
                    ;
                    if prod * f > 0xffff_ffff {
                        ok = false;
                    } else {
                        prod = prod * f;
                    }
                    mode = 0;
                    a = 0;
                    b = 0;
                } else {
                    ok = false;
                    mode = 0;
                    a = 0;
                    b = 0;
                }
            }
        }
        i = i + 1;
    }
    proof {
        assert(pattern@.take(n as int) =~= pattern@);
    }
    assert(prod * 4 * (n as u128 + 1) <= 0xffff_ffff * 4 * 0x1_0000_0000_0000_0000) by (nonlinear_arith)
        requires
            prod <= 0xffff_ffff,
            n < 0x1_0000_0000_0000_0000,
    ;
    ok && mode == 0 && prod * 4 * (n as u128 + 1) <= 0xffff_ffff
}

/// `rand_regex::Regex::compile` with at most 25 extra repetitions for the
/// unbounded operators, on a pattern whose repetitions fit (see
/// [`repetitions_fit`]): `with_repetition` adds the 25 extra repetitions to
/// a `{n,}` count in `u32`, and multiplies counts and byte capacities, so a
/// larger pattern could overflow and panic. Success is tied to the named
/// predicate. The generator may still need memory in proportion to the
/// pattern's capacity, up to the bound.
#[verifier::external_body]
fn compile_generator(pattern: &str) -> (r: Result<rand_regex::Regex, rand_regex::Error>)
    requires
        repetitions_fit(pattern@),
    ensures
        r is Ok <==> rand_regex_compiles(pattern@),
{
    rand_regex::Regex::compile(pattern, 25)
}

/// The generator of a pattern, when its repetitions fit and `rand_regex`
/// accepts it.
pub(crate) fn compile_pattern(pattern: &str) -> (r: Option<rand_regex::Regex>)
    ensures
        r is Some <==> pattern_usable(pattern@),
{
    if !check_repetitions(pattern) {
        return None;
    }
    match compile_generator(pattern) {
        Ok(g) => Some(g),
        Err(_) => None,
    }
}

/// A compiled `rand_regex` pattern together with its source text.
pub struct RegexGenerator {
    source: String,
    compiled: rand_regex::Regex,
}

impl RegexGenerator {
    /// The source text of the pattern.
    pub closed spec fn source(&self) -> Seq<char> {
        self.source@
    }
}

/// The string that `sample` gives from the pattern on a generator in the
/// given state.
pub uninterp spec fn xorshift_sample(state: RngState, pattern: Seq<char>) -> Seq<char>;

/// `rand::Rng::sample` with a compiled `rand_regex::Regex`: a random string
/// of the pattern's language, named by the generator's state and the
/// pattern; the sample is recorded with the pattern it was drawn from.
#[verifier::external_body]
fn sample_regex(rng: &mut Rng, gen: &RegexGenerator) -> (r: String)
    ensures
        r@ == xorshift_sample(old(rng)@, gen.source()),
        final(rng)@ == old(rng)@.after(Draw::Sample(gen.source())),
{
    ::rand::Rng::sample::<String, _>(&mut rng.inner, &gen.compiled)
}

/// The current time as seconds since the Unix epoch
/// (`chrono::Utc::now().timestamp()`). Nothing is promised of it.
#[verifier::external_body]
fn now_timestamp() -> i64 {
    chrono::Utc::now().timestamp()
}

/// The RFC 3339 text, to the second and with `Z`, of a Unix timestamp, as
/// `chrono` writes it.
pub uninterp spec fn rfc3339_seconds(ts: int) -> Seq<char>;

/// `chrono::DateTime::<Utc>::from_timestamp(ts, 0)` written with
/// `to_rfc3339_opts(SecondsFormat::Secs, true)`: the named text, present for
/// every timestamp chrono can hold (years up to 262142).
#[verifier::external_body]
fn format_timestamp(ts: i64) -> (r: Option<String>)
    ensures
        -8_000_000_000_000 <= ts <= 8_000_000_000_000 ==> r is Some,
        r matches Some(s) ==> s@ == rfc3339_seconds(ts as int),
{
    match chrono::DateTime::<chrono::Utc>::from_timestamp(ts, 0) {
        Some(dt) => Some(dt.to_rfc3339_opts(chrono::SecondsFormat::Secs, true)),
        None => None,
    }
}

/// A generator seeded with `seed`, with no draws made yet.
pub fn seed(s: u64) -> (r: Rng)
    ensures
        r@ == (RngState { seed: s, draws: Seq::empty() }),
{
    Rng { inner: xorshift_from_seed(s), seed: Ghost(s), draws: Ghost(Seq::empty()) }
}

/// A generator seeded from the operating system's random source, with the
/// seed that was drawn.
pub fn seedrand() -> (r: (u64, Rng))
    ensures
        r.1@ == (RngState { seed: r.0, draws: Seq::empty() }),
{
    let s = os_random_u64();
    (s, seed(s))
}

/// A number drawn uniformly from `low..high`.
pub fn gen_range(rng: &mut Rng, low: i64, high: i64) -> (r: i64)
    requires
        low < high,
    ensures
        low <= r < high,
        r == range_draw(old(rng)@, low as int, high as int),
        final(rng)@ == range_state(old(rng)@, low as int, high as int),
{
    let span: u64 = (high as i128 - low as i128) as u64;
    let x = uniform_u64(rng, 0, span);
    (low as i128 + x as i128) as i64
}

/// A number drawn uniformly from `low..high`.
pub fn gen_range_usize(rng: &mut Rng, low: usize, high: usize) -> (r: usize)
    requires
        low < high,
    ensures
        low <= r < high,
        r == xorshift_uniform(old(rng)@, low as u64, high as u64),
        final(rng)@ == old(rng)@.after(Draw::Uniform(low as u64, high as u64)),
{
    let x = uniform_u64(rng, low as u64, high as u64);
    x as usize
}

/// Any number from `i64::MIN` up to, not including, `i64::MAX`.
pub fn rand_int(rng: &mut Rng) -> (r: i64)
    ensures
        r < i64::MAX,
        r == range_draw(old(rng)@, i64::MIN as int, i64::MAX as int),
        final(rng)@ == range_state(old(rng)@, i64::MIN as int, i64::MAX as int),
{
    gen_range(rng, i64::MIN, i64::MAX)
}

/// Any number from `i32::MIN` up to, not including, `i32::MAX`.
pub fn rand_int_i32(rng: &mut Rng) -> (r: i32)
    ensures
        r < i32::MAX,
        r == range_draw(old(rng)@, i32::MIN as int, i32::MAX as int),
        final(rng)@ == range_state(old(rng)@, i32::MIN as int, i32::MAX as int),
{
    gen_range(rng, i32::MIN as i64, i32::MAX as i64) as i32
}

/// The generator's next number.
pub fn gen_u64(rng: &mut Rng) -> (r: u64)
    ensures
        r == xorshift_next(old(rng)@),
        final(rng)@ == old(rng)@.after(Draw::Next),
{
    next_u64(rng)
}

/// Puts the elements in a random order.
pub fn shuffle<T>(rng: &mut Rng, values: &mut Vec<T>)
    ensures
        final(values)@ == reordered(old(values)@, xorshift_shuffle(old(rng)@, old(values)@.len())),
        forall|i: int|
            0 <= i < old(values)@.len() ==> 0 <= #[trigger] xorshift_shuffle(old(rng)@, old(values)@.len())[i]
                < old(values)@.len(),
        final(values)@.to_multiset() == old(values)@.to_multiset(),
        final(values)@.len() == old(values)@.len(),
        final(rng)@ == old(rng)@.after(Draw::Shuffle(old(values)@.len())),
{
    shuffle_slice(rng, values);
}

/// Whether the result of a coin with `percent` chances in a hundred came up.
pub fn chance(rng: &mut Rng, percent: u64) -> (r: bool)
    ensures
        percent == 0 ==> !r,
        percent >= 100 ==> r,
        r == (xorshift_uniform(old(rng)@, 0, 100) < percent),
        final(rng)@ == old(rng)@.after(Draw::Uniform(0, 100)),
{
    uniform_u64(rng, 0, 100) < percent
}

/// The characters of printable text.
pub open spec fn printable_chars() -> Seq<char> {
    "abcdefghijklmnopqrstuvwxyzABCDEFGHIJKLMNOPQRSTUVWXYZ0123456789!@#$%^&*()-_=+[{]};:'\",<.>/?"@
}

/// A random string of `length` characters, each drawn uniformly from
/// `charset`, or from the printable characters when there is no charset.
pub fn gen_printable_string(rng: &mut Rng, length: usize, charset: Option<&str>) -> (r: String)
    requires
        charset matches Some(cs) ==> cs@.len() > 0,
    ensures
        r@.len() == length,
        forall|i: int|
            0 <= i < length ==> match charset {
                Some(cs) => cs@.contains(#[trigger] r@[i]),
                None => printable_chars().contains(r@[i]),
            },
{
    let cs: &str = match charset {
        Some(cs) => cs,
        None => "abcdefghijklmnopqrstuvwxyzABCDEFGHIJKLMNOPQRSTUVWXYZ0123456789!@#$%^&*()-_=+[{]};:'\",<.>/?",
    };
    proof {
        reveal_strlit("abcdefghijklmnopqrstuvwxyzABCDEFGHIJKLMNOPQRSTUVWXYZ0123456789!@#$%^&*()-_=+[{]};:'\",<.>/?");
    }
    let n = cs.unicode_len();
    let mut r = String::new();
    let mut i: usize = 0;
    while i < length
        invariant
            n == cs@.len(),
            n > 0,
            i <= length,
            r@.len() == i,
            forall|k: int| 0 <= k < i ==> cs@.contains(#[trigger] r@[k]),
        decreases length - i,
    {
        let k = gen_range_usize(rng, 0, n);
        let c = cs.get_char(k);
        let ghost before = r@;
        push_char(&mut r, c);
        proof {
            assert(r@[i as int] == cs@[k as int]);
            assert forall|q: int| 0 <= q < i + 1 implies cs@.contains(#[trigger] r@[q]) by {
                if q < i {
                    assert(r@[q] == before[q]);
                }
            }
        }
        i = i + 1;
    }
    r
}

/// A random string generated from the regular expression `regex`; nothing
/// when its repetitions do not fit or `rand_regex` does not accept it.
pub fn rand_str_regex(rng: &mut Rng, regex: &str) -> (r: Option<String>)
    ensures
        r is Some <==> pattern_usable(regex@),
        r matches Some(s) ==> s@ == xorshift_sample(old(rng)@, regex@) && final(rng)@ == old(rng)@.after(
            Draw::Sample(regex@),
        ),
        r is None ==> final(rng)@ == old(rng)@,
{
    match compile_pattern(regex) {
        Some(compiled) => {
            let gen = RegexGenerator { source: crate::text::owned(regex), compiled };
            Some(sample_regex(rng, &gen))
        },
        None => None,
    }
}

/// Fifty years, counted as 2600 weeks, in seconds.
pub open spec fn fifty_years() -> int {
    1_572_480_000
}

/// The bounds of the moments drawn around `now`: fifty years either side,
/// kept within what chrono can write.
pub open spec fn date_time_bounds(now: int) -> (int, int) {
    let lo = if now - fifty_years() < -8_000_000_000_000 {
        -8_000_000_000_000
    } else if now - fifty_years() > 8_000_000_000_000 - 1 {
        8_000_000_000_000 - 1
    } else {
        now - fifty_years()
    };
    let hi = if now + fifty_years() > 8_000_000_000_000 {
        8_000_000_000_000
    } else if now + fifty_years() < lo + 1 {
        lo + 1
    } else {
        now + fifty_years()
    };
    (lo, hi)
}

/// The RFC 3339 text of a moment drawn from fifty years before `now` up to
/// fifty years after it (see [`date_time_bounds`]).
pub fn date_time_around(rng: &mut Rng, now: i64) -> (r: String)
    ensures
        exists|ts: int| -8_000_000_000_000 <= ts <= 8_000_000_000_000 && r@ == rfc3339_seconds(ts),
        exists|ts: int|
            date_time_bounds(now as int).0 <= ts < date_time_bounds(now as int).1 && r@ == rfc3339_seconds(ts),
        -8_000_000_000_000 + fifty_years() <= now <= 8_000_000_000_000 - fifty_years() ==> exists|ts: int|
            now - fifty_years() <= ts < now + fifty_years() && r@ == rfc3339_seconds(ts),
        r@ == rfc3339_seconds(
            range_draw(old(rng)@, date_time_bounds(now as int).0, date_time_bounds(now as int).1),
        ),
        final(rng)@ == range_state(old(rng)@, date_time_bounds(now as int).0, date_time_bounds(now as int).1),
{
    let lo: i64 = if now < -8_000_000_000_000 + 1_572_480_000 {
        -8_000_000_000_000
    } else if now > 8_000_000_000_000 - 1 + 1_572_480_000 {
        8_000_000_000_000 - 1
    } else {
        now - 1_572_480_000
    };
    let hi: i64 = if now > 8_000_000_000_000 - 1_572_480_000 {
        8_000_000_000_000
    } else if now + 1_572_480_000 < lo + 1 {
        lo + 1
    } else {
        now + 1_572_480_000
    };
    let ts = gen_range(rng, lo, hi);
    match format_timestamp(ts) {
        Some(s) => s,
        None => String::new(),
    }
}

/// The RFC 3339 text of a random moment between fifty years before and
/// fifty years after the current time.
pub fn rand_date_time(rng: &mut Rng) -> (r: String)
    ensures
        exists|ts: int| -8_000_000_000_000 <= ts <= 8_000_000_000_000 && r@ == rfc3339_seconds(ts),
        exists|now: int|
            r@ == rfc3339_seconds(range_draw(old(rng)@, date_time_bounds(now).0, date_time_bounds(now).1)),
        exists|now: int, ts: int|
            #![trigger date_time_bounds(now), rfc3339_seconds(ts)]
            date_time_bounds(now).0 <= ts < date_time_bounds(now).1 && r@ == rfc3339_seconds(ts) && (-8_000_000_000_000
                + fifty_years() <= now <= 8_000_000_000_000 - fifty_years() ==> now - fifty_years() <= ts < now
                + fifty_years()),
{
    let now = now_timestamp();
    date_time_around(rng, now)
}

} // verus!
