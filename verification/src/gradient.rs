//! Colour gradients: interpolation between stops, with an optional cache.

use vstd::prelude::*;
use crate::error::ConfigError;
use crate::fixed::ONE;

verus! {

/// An RGB colour.
#[derive(Clone, Copy, Debug, PartialEq, Eq, Structural)]
pub struct Color {
    pub r: u8,
    pub g: u8,
    pub b: u8,
}

/// A colour anchored at an offset in `[0, 1)`, the offset in units of 2^-30.
#[derive(Clone, Copy, Debug, PartialEq, Eq, Structural)]
pub struct Stop {
    pub offset: i64,
    pub color: Color,
}

/// A gradient: the colour at 0, the stops in ascending order, and the
/// colour at 0 again at 1. It may carry a cache of evenly spaced samples.
#[derive(Debug)]
pub struct Gradient {
    initial: Color,
    stops: Vec<Stop>,
    cache: Vec<Color>,
}

/// Every offset lies in `[0, 1)`.
pub open spec fn offsets_in_range(stops: Seq<Stop>) -> bool {
    forall|i: int| 0 <= i < stops.len() ==> 0 <= (#[trigger] stops[i]).offset < ONE
}

/// The offsets strictly increase.
pub open spec fn offsets_ascending(stops: Seq<Stop>) -> bool {
    forall|i: int, j: int| 0 <= i < j < stops.len() ==> (#[trigger] stops[i]).offset < (#[trigger] stops[j]).offset
}

/// How many of the first `n` stops lie at or before `t`.
pub open spec fn stops_up_to(stops: Seq<Stop>, t: int, n: nat) -> nat
    decreases n,
{
    if n == 0 {
        0
    } else {
        stops_up_to(stops, t, (n - 1) as nat) + if stops[n - 1].offset <= t {
            1nat
        } else {
            0nat
        }
    }
}

/// One channel of the colour that lies `num / den` of the way from `a` to `b`.
pub open spec fn mix_channel(a: u8, b: u8, num: int, den: int) -> int {
    (a * (den - num) + b * num) / den
}

/// The colour that lies `num / den` of the way from `a` to `b`.
pub open spec fn mix(a: Color, b: Color, num: int, den: int) -> Color {
    Color {
        r: mix_channel(a.r, b.r, num, den) as u8,
        g: mix_channel(a.g, b.g, num, den) as u8,
        b: mix_channel(a.b, b.b, num, den) as u8,
    }
}

/// The offset at which the `k`-th segment starts: 0, or that of stop `k - 1`.
pub open spec fn segment_start(stops: Seq<Stop>, k: int) -> int {
    if k == 0 {
        0
    } else {
        stops[k - 1].offset as int
    }
}

/// The offset at which the `k`-th segment ends: that of stop `k`, or 1.
pub open spec fn segment_end(stops: Seq<Stop>, k: int) -> int {
    if k == stops.len() {
        ONE as int
    } else {
        stops[k].offset as int
    }
}

/// The colour at `t` when `t` lies in the `k`-th segment.
pub open spec fn segment_color(initial: Color, stops: Seq<Stop>, t: int, k: int) -> Color {
    let from = if k == 0 {
        initial
    } else {
        stops[k - 1].color
    };
    let to = if k == stops.len() {
        initial
    } else {
        stops[k].color
    };
    mix(from, to, t - segment_start(stops, k), segment_end(stops, k) - segment_start(stops, k))
}

/// The colour at `t`, found from the stops: `t` lies in the segment whose
/// index is the number of stops at or before `t`.
pub open spec fn color_from_stops(initial: Color, stops: Seq<Stop>, t: int) -> Color {
    segment_color(initial, stops, t, stops_up_to(stops, t, stops.len()) as int)
}

/// The offset of the `i`-th of `n` evenly spaced samples.
pub open spec fn sample_offset(i: int, n: int) -> int {
    (i * ONE) / n
}

/// The cache of `n` samples.
pub open spec fn cache_samples(initial: Color, stops: Seq<Stop>, n: nat) -> Seq<Color> {
    Seq::new(n, |i: int| color_from_stops(initial, stops, sample_offset(i, n as int)))
}

/// The colour at `t`, found from a cache: between the two samples around
/// `t`, and the last sample from its offset on.
pub open spec fn color_from_cache(cache: Seq<Color>, t: int) -> Color {
    let position = t * cache.len();
    let base = if position / (ONE as int) < cache.len() - 1 {
        position / (ONE as int)
    } else {
        cache.len() - 1
    };
    if base < cache.len() - 1 {
        mix(cache[base], cache[base + 1], position % (ONE as int), ONE as int)
    } else {
        cache[base]
    }
}

/// A mixed channel lies between the two channels.
pub proof fn lemma_mix_channel_range(a: u8, b: u8, num: int, den: int)
    requires
        0 <= num <= den,
        den > 0,
    ensures
        0 <= mix_channel(a, b, num, den) <= 255,
        a <= b ==> a <= mix_channel(a, b, num, den) <= b,
        b <= a ==> b <= mix_channel(a, b, num, den) <= a,
        num == 0 ==> mix_channel(a, b, num, den) == a,
        num == den ==> mix_channel(a, b, num, den) == b,
{
    let total = a * (den - num) + b * num;
    let low: int = if a <= b {
        a as int
    } else {
        b as int
    };
    let high: int = if a <= b {
        b as int
    } else {
        a as int
    };
    assert(low * den <= total <= high * den) by (nonlinear_arith)
        requires
            total == a * (den - num) + b * num,
            0 <= num <= den,
            low <= a <= high,
            low <= b <= high,
    ;
    assert(low <= total / den <= high) by (nonlinear_arith)
        requires
            low * den <= total <= high * den,
            den > 0,
    ;
    if num == 0 {
        assert(total == a * den) by (nonlinear_arith)
            requires
                total == a * (den - num) + b * num,
                num == 0,
        ;
        assert((a * den) / den == a) by (nonlinear_arith)
            requires
                den > 0,
        ;
    }
    if num == den {
        assert(total == b * den) by (nonlinear_arith)
            requires
                total == a * (den - num) + b * num,
                num == den,
        ;
        assert((b * den) / den == b) by (nonlinear_arith)
            requires
                den > 0,
        ;
    }
}

/// Halfway between two colours, each channel is the mean of the two
/// channels, rounded down.
pub proof fn lemma_mix_midpoint(a: u8, b: u8, half: int)
    requires
        half > 0,
    ensures
        mix_channel(a, b, half, 2 * half) == (a + b) / 2,
{
    let total = a * (2 * half - half) + b * half;
    assert(total == (a + b) * half) by (nonlinear_arith)
        requires
            total == a * (2 * half - half) + b * half,
    ;
    let q = (a + b) / 2;
    let r = (a + b) % 2;
    assert(total == q * (2 * half) + r * half) by (nonlinear_arith)
        requires
            total == (a + b) * half,
            a + b == 2 * q + r,
    ;
    assert(0 <= r * half < 2 * half) by (nonlinear_arith)
        requires
            0 <= r < 2,
            half > 0,
    ;
    vstd::arithmetic::div_mod::lemma_fundamental_div_mod_converse(total, 2 * half, q, r * half);
}

/// Stops beyond the first one that lies after `t` do not count.
pub proof fn lemma_stops_up_to_stays(stops: Seq<Stop>, t: int, k: nat, n: nat)
    requires
        offsets_ascending(stops),
        k <= n <= stops.len(),
        k < stops.len() ==> stops[k as int].offset > t,
    ensures
        stops_up_to(stops, t, n) == stops_up_to(stops, t, k),
    decreases n,
{
    if n > k {
        lemma_stops_up_to_stays(stops, t, k, (n - 1) as nat);
        if n - 1 > k {
            assert(stops[k as int].offset < stops[n - 1].offset);
        }
    }
}

/// The segment found for `t` holds `t`: it starts at or before `t` and
/// ends after it, or at 1.
pub proof fn lemma_segment_holds_offset(stops: Seq<Stop>, t: int)
    requires
        offsets_in_range(stops),
        offsets_ascending(stops),
        0 <= t <= ONE,
    ensures
        ({
            let k = stops_up_to(stops, t, stops.len()) as int;
            &&& 0 <= k <= stops.len()
            &&& segment_start(stops, k) <= t
            &&& t < segment_end(stops, k) || (k == stops.len() && t == ONE)
            &&& segment_start(stops, k) < segment_end(stops, k)
        }),
{
    lemma_count_is_prefix(stops, t, stops.len());
}

/// Among ascending stops, those at or before `t` are the first ones.
pub proof fn lemma_count_is_prefix(stops: Seq<Stop>, t: int, n: nat)
    requires
        offsets_ascending(stops),
        n <= stops.len(),
    ensures
        stops_up_to(stops, t, n) <= n,
        forall|i: int| 0 <= i < stops_up_to(stops, t, n) ==> (#[trigger] stops[i]).offset <= t,
        forall|i: int| stops_up_to(stops, t, n) <= i < n ==> (#[trigger] stops[i]).offset > t,
    decreases n,
{
    if n > 0 {
        lemma_count_is_prefix(stops, t, (n - 1) as nat);
        let c = stops_up_to(stops, t, (n - 1) as nat);
        if stops[n - 1].offset <= t {
            if c < n - 1 {
                assert(stops[c as int].offset > t);
                assert(stops[c as int].offset < stops[n - 1].offset);
            }
        }
    }
}

impl Stop {
    /// The stop that anchors `color` at `offset`.
    pub fn new(offset: i64, color: Color) -> (s: Stop)
        ensures
            s.offset == offset,
            s.color == color,
    {
        Stop { offset, color }
    }
}

impl Color {
    /// The colour with the three channels.
    pub fn new(r: u8, g: u8, b: u8) -> (c: Color)
        ensures
            c.r == r,
            c.g == g,
            c.b == b,
    {
        Color { r, g, b }
    }
}

/// One channel of a mixed colour.
fn mix_one(a: u8, b: u8, num: i64, den: i64) -> (c: u8)
    requires
        0 <= num <= den <= ONE,
        den > 0,
    ensures
        c == mix_channel(a, b, num as int, den as int),
{
    proof {
        lemma_mix_channel_range(a, b, num as int, den as int);
    }
    assert(0 <= a * (den - num) <= 255 * 0x4000_0000 && 0 <= b * num <= 255 * 0x4000_0000) by (nonlinear_arith)
        requires
            0 <= num <= den <= 0x4000_0000,
            0 <= a <= 255,
            0 <= b <= 255,
    ;
    let total: i64 = (a as i64) * (den - num) + (b as i64) * num;
    (total / den) as u8
}

/// The colour that lies `num / den` of the way from `a` to `b`.
pub fn mix_color(a: Color, b: Color, num: i64, den: i64) -> (c: Color)
    requires
        0 <= num <= den <= ONE,
        den > 0,
    ensures
        c == mix(a, b, num as int, den as int),
{
    proof {
        lemma_mix_channel_range(a.r, b.r, num as int, den as int);
        lemma_mix_channel_range(a.g, b.g, num as int, den as int);
        lemma_mix_channel_range(a.b, b.b, num as int, den as int);
    }
    Color { r: mix_one(a.r, b.r, num, den), g: mix_one(a.g, b.g, num, den), b: mix_one(a.b, b.b, num, den) }
}

impl Gradient {
    /// The colour at offset 0 and at offset 1.
    pub closed spec fn spec_initial(self) -> Color {
        self.initial
    }

    /// The stops, in ascending order.
    pub closed spec fn spec_stops(self) -> Seq<Stop> {
        self.stops@
    }

    /// The cached samples; empty when no cache was built.
    pub closed spec fn spec_cache(self) -> Seq<Color> {
        self.cache@
    }

    /// What holds of every gradient: the stops lie in `[0, 1)` in strictly
    /// ascending order, and a cache holds the samples of these stops.
    pub open spec fn wf(self) -> bool {
        &&& offsets_in_range(self.spec_stops())
        &&& offsets_ascending(self.spec_stops())
        &&& self.spec_cache() == cache_samples(self.spec_initial(), self.spec_stops(), self.spec_cache().len())
    }

    #[verifier::type_invariant]
    spec fn inv(self) -> bool {
        self.wf()
    }

    /// The colour of the gradient at `t`.
    pub open spec fn spec_get_color(self, t: int) -> Color {
        if self.spec_cache().len() > 0 {
            color_from_cache(self.spec_cache(), t)
        } else {
            color_from_stops(self.spec_initial(), self.spec_stops(), t)
        }
    }

    /// A gradient without a cache. The stops are refused unless every
    /// offset lies in `[0, 1)` and the offsets strictly increase.
    pub fn new(initial: Color, stops: Vec<Stop>) -> (r: Result<Gradient, ConfigError>)
        ensures
            r is Ok <==> offsets_in_range(stops@) && offsets_ascending(stops@),
            match r {
                Ok(g) => {
                    &&& g.wf()
                    &&& g.spec_initial() == initial
                    &&& g.spec_stops() == stops@
                    &&& g.spec_cache().len() == 0
                },
                Err(e) => e == if !offsets_in_range(stops@) {
                    ConfigError::StopOffsetOutOfRange
                } else {
                    ConfigError::StopsNotAscending
                },
            },
    {
        let mut i: usize = 0;
        while i < stops.len()
            invariant
                i <= stops.len(),
                forall|k: int| 0 <= k < i ==> 0 <= (#[trigger] stops@[k]).offset < ONE,
            decreases stops.len() - i,
        {
            if stops[i].offset < 0 || stops[i].offset >= ONE {
                return Err(ConfigError::StopOffsetOutOfRange);
            }
            i = i + 1;
        }
        let mut j: usize = 1;
        while j < stops.len()
            invariant
                1 <= j,
                offsets_in_range(stops@),
                forall|a: int, b: int|
                    0 <= a < b < j && b < stops@.len() ==> (#[trigger] stops@[a]).offset < (
                    #[trigger] stops@[b]).offset,
            decreases stops.len() - j,
        {
            if stops[j - 1].offset >= stops[j].offset {
                return Err(ConfigError::StopsNotAscending);
            }
            proof {
                assert forall|a: int, b: int| 0 <= a < b < j + 1 && b < stops@.len() implies (
                #[trigger] stops@[a]).offset < (#[trigger] stops@[b]).offset by {
                    if b == j && a < j - 1 {
                        assert(stops@[a].offset < stops@[j - 1].offset);
                    }
                }
            }
            j = j + 1;
        }
        let cache: Vec<Color> = Vec::new();
        assert(cache@ =~= cache_samples(initial, stops@, 0));
        Ok(Gradient { initial, stops, cache })
    }

    /// The colour at offset 0 and at offset 1.
    pub fn initial(&self) -> (c: Color)
        ensures
            c == self.spec_initial(),
    {
        self.initial
    }

    /// The stops, in ascending order of their offsets.
    pub fn stops(&self) -> (stops: &Vec<Stop>)
        ensures
            stops@ == self.spec_stops(),
            offsets_in_range(stops@),
            offsets_ascending(stops@),
    {
        proof {
            use_type_invariant(self);
        }
        &self.stops
    }

    /// Number of cached samples; 0 when no cache was built.
    pub fn cache_len(&self) -> (n: usize)
        ensures
            n == self.spec_cache().len(),
    {
        self.cache.len()
    }

    /// The colour at `t`, found by scanning the stops.
    fn scan_stops(&self, t: i64) -> (c: Color)
        requires
            0 <= t <= ONE,
        ensures
            c == color_from_stops(self.spec_initial(), self.spec_stops(), t as int),
    {
        proof {
            use_type_invariant(self);
        }
        let mut from: Color = self.initial;
        let mut start: i64 = 0;
        let mut i: usize = 0;
        while i < self.stops.len()
            invariant
                i <= self.stops@.len(),
                self.wf(),
                0 <= t <= ONE,
                stops_up_to(self.stops@, t as int, i as nat) == i,
                start == segment_start(self.stops@, i as int),
                from == if i == 0 {
                    self.initial
                } else {
                    self.stops@[i - 1].color
                },
                start <= t,
            decreases self.stops@.len() - i,
        {
            let stop: Stop = self.stops[i];
            if t < stop.offset {
                proof {
                    lemma_stops_up_to_stays(self.stops@, t as int, i as nat, self.stops@.len());
                    if i > 0 {
                        assert(self.stops@[i - 1].offset < self.stops@[i as int].offset);
                    }
                }
                return mix_color(from, stop.color, t - start, stop.offset - start);
            }
            from = stop.color;
            start = stop.offset;
            i = i + 1;
        }
        mix_color(from, self.initial, t - start, ONE - start)
    }

    /// The colour at `t`, found from the cache.
    fn scan_cache(&self, t: i64) -> (c: Color)
        requires
            0 <= t <= ONE,
            self.spec_cache().len() > 0,
        ensures
            c == color_from_cache(self.spec_cache(), t as int),
    {
        let n: u128 = self.cache.len() as u128;
        assert(0 <= t * n <= 0x4000_0000 * 0xffff_ffff_ffff_ffff) by (nonlinear_arith)
            requires
                0 <= t <= 0x4000_0000,
                0 <= n <= 0xffff_ffff_ffff_ffff,
        ;
        let position: u128 = (t as u128) * n;
        let whole: u128 = position / (ONE as u128);
        let part: u128 = position % (ONE as u128);
        if whole < n - 1 {
            let base: usize = whole as usize;
            mix_color(self.cache[base], self.cache[base + 1], part as i64, ONE)
        } else {
            self.cache[self.cache.len() - 1]
        }
    }

    /// The colour of the gradient at `t`, a fixed-point number in `[0, 1]`.
    pub fn get_color(&self, t: i64) -> (c: Color)
        requires
            0 <= t <= ONE,
        ensures
            c == self.spec_get_color(t as int),
    {
        if self.cache.len() > 0 {
            self.scan_cache(t)
        } else {
            self.scan_stops(t)
        }
    }

    /// The gradient with a cache of `cache_size` evenly spaced samples. A
    /// gradient that has a cache is returned unchanged.
    pub fn build_cache(self, cache_size: usize) -> (g: Gradient)
        ensures
            g.wf(),
            g.spec_initial() == self.spec_initial(),
            g.spec_stops() == self.spec_stops(),
            g.spec_cache() == if self.spec_cache().len() > 0 {
                self.spec_cache()
            } else {
                cache_samples(self.spec_initial(), self.spec_stops(), cache_size as nat)
            },
    {
        proof {
            use_type_invariant(&self);
        }
        if self.cache.len() > 0 {
            return self;
        }
        let mut cache: Vec<Color> = Vec::new();
        let mut i: usize = 0;
        while i < cache_size
            invariant
                i <= cache_size,
                self.wf(),
                self.spec_cache().len() == 0,
                cache@.len() == i,
                forall|k: int|
                    0 <= k < i ==> #[trigger] cache@[k] == color_from_stops(
                        self.spec_initial(),
                        self.spec_stops(),
                        sample_offset(k, cache_size as int),
                    ),
            decreases cache_size - i,
        {
            assert(0 <= i * ONE <= 0xffff_ffff_ffff_ffff * 0x4000_0000) by (nonlinear_arith)
                requires
                    0 <= i <= 0xffff_ffff_ffff_ffff,
                    ONE == 0x4000_0000,
            ;
            let scaled: u128 = (i as u128) * (ONE as u128);
            let t: u128 = scaled / (cache_size as u128);
            assert(t <= ONE) by (nonlinear_arith)
                requires
                    t == (i * ONE) / (cache_size as int),
                    0 <= i < cache_size,
                    ONE > 0,
            ;
            let c = self.scan_stops(t as i64);
            cache.push(c);
            i = i + 1;
        }
        assert(cache@ =~= cache_samples(self.spec_initial(), self.spec_stops(), cache_size as nat));
        Gradient { initial: self.initial, stops: self.stops, cache }
    }
}

/// At offset 0 a gradient without a stop at 0 shows its initial colour,
/// with a cache or without one.
pub proof fn lemma_color_at_zero(g: Gradient)
    requires
        g.wf(),
        g.spec_stops().len() > 0 ==> g.spec_stops()[0].offset > 0,
    ensures
        g.spec_get_color(0) == g.spec_initial(),
{
    let stops = g.spec_stops();
    let initial = g.spec_initial();
    lemma_stops_up_to_stays(stops, 0, 0, stops.len());
    let den = segment_end(stops, 0) - segment_start(stops, 0);
    assert(den > 0);
    let to = if stops.len() == 0 {
        initial
    } else {
        stops[0].color
    };
    lemma_mix_channel_range(initial.r, to.r, 0, den);
    lemma_mix_channel_range(initial.g, to.g, 0, den);
    lemma_mix_channel_range(initial.b, to.b, 0, den);
    assert(color_from_stops(initial, stops, 0) == initial);
    let cache = g.spec_cache();
    if cache.len() > 0 {
        assert(sample_offset(0, cache.len() as int) == 0) by (nonlinear_arith)
            requires
                cache.len() > 0,
                ONE > 0,
        ;
        assert(cache[0] == initial);
        assert(0 * cache.len() == 0);
        if cache.len() > 1 {
            lemma_mix_channel_range(cache[0].r, cache[1].r, 0, ONE as int);
            lemma_mix_channel_range(cache[0].g, cache[1].g, 0, ONE as int);
            lemma_mix_channel_range(cache[0].b, cache[1].b, 0, ONE as int);
        }
    }
}

/// Halfway between two neighbouring stops, a gradient without a cache
/// shows the mean of their colours, each channel rounded down.
pub proof fn lemma_color_at_midpoint(g: Gradient, k: int, t: int)
    requires
        g.wf(),
        g.spec_cache().len() == 0,
        0 < k < g.spec_stops().len(),
        t - g.spec_stops()[k - 1].offset == g.spec_stops()[k].offset - t,
    ensures
        g.spec_get_color(t) == (Color {
            r: ((g.spec_stops()[k - 1].color.r + g.spec_stops()[k].color.r) / 2) as u8,
            g: ((g.spec_stops()[k - 1].color.g + g.spec_stops()[k].color.g) / 2) as u8,
            b: ((g.spec_stops()[k - 1].color.b + g.spec_stops()[k].color.b) / 2) as u8,
        }),
{
    let stops = g.spec_stops();
    let from = stops[k - 1];
    let to = stops[k];
    assert(from.offset < to.offset);
    let half = t - from.offset;
    assert(half > 0);
    assert(stops_up_to(stops, t, k as nat) == k) by {
        lemma_all_count(stops, t, k as nat);
    }
    lemma_stops_up_to_stays(stops, t, k as nat, stops.len());
    lemma_mix_midpoint(from.color.r, to.color.r, half);
    lemma_mix_midpoint(from.color.g, to.color.g, half);
    lemma_mix_midpoint(from.color.b, to.color.b, half);
}

/// When the first `n` stops all lie at or before `t`, all `n` count.
pub proof fn lemma_all_count(stops: Seq<Stop>, t: int, n: nat)
    requires
        offsets_ascending(stops),
        0 < n <= stops.len(),
        stops[n - 1].offset <= t,
    ensures
        stops_up_to(stops, t, n) == n,
    decreases n,
{
    if n > 1 {
        assert(stops[n - 2].offset < stops[n - 1].offset);
        lemma_all_count(stops, t, (n - 1) as nat);
    } else {
        assert(stops_up_to(stops, t, 0) == 0);
    }
    assert(stops_up_to(stops, t, n) == stops_up_to(stops, t, (n - 1) as nat) + 1);
}

} // verus!
