use vstd::multiset::Multiset;
use vstd::prelude::*;
use vstd::string::StringExecFns;

use std::collections::HashMap;

use crate::error::ColorMapError;
use crate::raster::Pixel;
use crate::raster::Raster;
use crate::rng::Sampler;
use crate::Configuration;

verus! {

/// How many partition passes the clusterer may run before it gives up with
/// `ColorMapError::MaxIterations`.
pub const MAX_ITERATIONS: i32 = 1000;

/// One distinct color together with how many pixels carry it exactly. The
/// same shape serves as a cluster centroid, whose count is then the sum of
/// its members' counts.
#[derive(Debug, Clone, Copy, PartialEq, Eq, Structural)]
pub struct ColorContainer {
    pub r: u8,
    pub g: u8,
    pub b: u8,
    pub count: u32,
}

/// Squared Euclidean distance between two colors in RGB space; the count
/// plays no part.
pub open spec fn dist_spec(a: ColorContainer, b: ColorContainer) -> int {
    (a.r - b.r) * (a.r - b.r) + (a.g - b.g) * (a.g - b.g) + (a.b - b.b) * (a.b - b.b)
}

pub proof fn lemma_dist_bounds(a: ColorContainer, b: ColorContainer)
    ensures
        0 <= dist_spec(a, b) <= 195075,
        dist_spec(a, b) == 0 <==> (a.r == b.r && a.g == b.g && a.b == b.b),
{
    let dr = a.r - b.r;
    let dg = a.g - b.g;
    let db = a.b - b.b;
    assert(0 <= dr * dr <= 65025 && (dr * dr == 0 <==> dr == 0)) by (nonlinear_arith)
        requires
            -255 <= dr <= 255,
    ;
    assert(0 <= dg * dg <= 65025 && (dg * dg == 0 <==> dg == 0)) by (nonlinear_arith)
        requires
            -255 <= dg <= 255,
    ;
    assert(0 <= db * db <= 65025 && (db * db == 0 <==> db == 0)) by (nonlinear_arith)
        requires
            -255 <= db <= 255,
    ;
}

fn distance(centroid: &ColorContainer, point: &ColorContainer) -> (d: u32)
    ensures
        d == dist_spec(*centroid, *point),
        d <= 195075,
{
    proof {
        lemma_dist_bounds(*centroid, *point);
    }
    let dr: i32 = point.r as i32 - centroid.r as i32;
    let dg: i32 = point.g as i32 - centroid.g as i32;
    let db: i32 = point.b as i32 - centroid.b as i32;
    assert(dr * dr == (centroid.r - point.r) * (centroid.r - point.r)) by (nonlinear_arith)
        requires
            dr == point.r - centroid.r,
    ;
    assert(dg * dg == (centroid.g - point.g) * (centroid.g - point.g)) by (nonlinear_arith)
        requires
            dg == point.g - centroid.g,
    ;
    assert(db * db == (centroid.b - point.b) * (centroid.b - point.b)) by (nonlinear_arith)
        requires
            db == point.b - centroid.b,
    ;
    (dr * dr + dg * dg + db * db) as u32
}

/// `i` is the index that a partition pass assigns `p` to: no centroid is
/// strictly nearer, and every earlier centroid is strictly farther, so ties
/// resolve to the earliest-tested index.
pub open spec fn is_closest(centroids: Seq<ColorContainer>, p: ColorContainer, i: int) -> bool {
    &&& 0 <= i < centroids.len()
    &&& forall|j: int|
        0 <= j < centroids.len() ==> dist_spec(centroids[i], p) <= #[trigger] dist_spec(
            centroids[j],
            p,
        )
    &&& forall|j: int| 0 <= j < i ==> #[trigger] dist_spec(centroids[j], p) > dist_spec(
        centroids[i],
        p,
    )
}

/// Index of the centroid nearest to `point` under squared RGB distance,
/// ties resolving to the earliest index.
pub fn closest_centroid(point: &ColorContainer, centroids: &Vec<ColorContainer>) -> (i: usize)
    requires
        centroids@.len() > 0,
    ensures
        is_closest(centroids@, *point, i as int),
{
    let mut index: usize = 0;
    let mut min_distance: u32 = distance(&centroids[0], point);
    let mut i: usize = 0;
    while i < centroids.len()
        invariant
            centroids@.len() > 0,
            i <= centroids@.len(),
            index < centroids@.len(),
            index <= i || index == 0,
            min_distance == dist_spec(centroids@[index as int], *point),
            forall|j: int|
                0 <= j < i ==> min_distance <= #[trigger] dist_spec(centroids@[j], *point),
            forall|j: int|
                0 <= j < index ==> #[trigger] dist_spec(centroids@[j], *point) > min_distance,
        decreases centroids@.len() - i,
    {
        let d: u32 = distance(&centroids[i], point);
        if d < min_distance {
            min_distance = d;
            index = i;
        }
        i = i + 1;
    }
    index
}

/// Spec-level character for one hexadecimal digit, upper case.
pub open spec fn hex_digit_spec(n: u8) -> char
    recommends
        n < 16,
{
    if n == 0 {
        '0'
    } else if n == 1 {
        '1'
    } else if n == 2 {
        '2'
    } else if n == 3 {
        '3'
    } else if n == 4 {
        '4'
    } else if n == 5 {
        '5'
    } else if n == 6 {
        '6'
    } else if n == 7 {
        '7'
    } else if n == 8 {
        '8'
    } else if n == 9 {
        '9'
    } else if n == 10 {
        'A'
    } else if n == 11 {
        'B'
    } else if n == 12 {
        'C'
    } else if n == 13 {
        'D'
    } else if n == 14 {
        'E'
    } else {
        'F'
    }
}

fn hex_digit_str(n: u8) -> (s: &'static str)
    requires
        n < 16,
    ensures
        s@.len() == 1,
        s@[0] == hex_digit_spec(n),
{
    if n == 0 {
        proof {
            reveal_strlit("0");
        }
        "0"
    } else if n == 1 {
        proof {
            reveal_strlit("1");
        }
        "1"
    } else if n == 2 {
        proof {
            reveal_strlit("2");
        }
        "2"
    } else if n == 3 {
        proof {
            reveal_strlit("3");
        }
        "3"
    } else if n == 4 {
        proof {
            reveal_strlit("4");
        }
        "4"
    } else if n == 5 {
        proof {
            reveal_strlit("5");
        }
        "5"
    } else if n == 6 {
        proof {
            reveal_strlit("6");
        }
        "6"
    } else if n == 7 {
        proof {
            reveal_strlit("7");
        }
        "7"
    } else if n == 8 {
        proof {
            reveal_strlit("8");
        }
        "8"
    } else if n == 9 {
        proof {
            reveal_strlit("9");
        }
        "9"
    } else if n == 10 {
        proof {
            reveal_strlit("A");
        }
        "A"
    } else if n == 11 {
        proof {
            reveal_strlit("B");
        }
        "B"
    } else if n == 12 {
        proof {
            reveal_strlit("C");
        }
        "C"
    } else if n == 13 {
        proof {
            reveal_strlit("D");
        }
        "D"
    } else if n == 14 {
        proof {
            reveal_strlit("E");
        }
        "E"
    } else {
        proof {
            reveal_strlit("F");
        }
        "F"
    }
}

/// The seven characters of a color's `#RRGGBB` form, upper case.
pub open spec fn hex_string_spec(c: ColorContainer) -> Seq<char> {
    seq![
        '#',
        hex_digit_spec((c.r / 16) as u8),
        hex_digit_spec((c.r % 16) as u8),
        hex_digit_spec((c.g / 16) as u8),
        hex_digit_spec((c.g % 16) as u8),
        hex_digit_spec((c.b / 16) as u8),
        hex_digit_spec((c.b % 16) as u8),
    ]
}

impl ColorContainer {
    /// Renders the color as `#RRGGBB` with upper-case hexadecimal digits.
    pub fn to_hex_string(&self) -> (s: String)
        ensures
            s@ == hex_string_spec(*self),
    {
        proof {
            reveal_strlit("#");
        }
        let mut s = String::from_str("#");
        s.append(hex_digit_str(self.r / 16));
        s.append(hex_digit_str(self.r % 16));
        s.append(hex_digit_str(self.g / 16));
        s.append(hex_digit_str(self.g % 16));
        s.append(hex_digit_str(self.b / 16));
        s.append(hex_digit_str(self.b % 16));
        assert(s@ =~= hex_string_spec(*self));
        s
    }
}

/// Sum of one integer-valued projection over a sequence of colors.
pub open spec fn sum_of(s: Seq<ColorContainer>, f: spec_fn(ColorContainer) -> int) -> int
    decreases s.len(),
{
    if s.len() == 0 {
        0
    } else {
        sum_of(s.drop_last(), f) + f(s.last())
    }
}

pub open spec fn red_of() -> spec_fn(ColorContainer) -> int {
    |c: ColorContainer| c.r as int
}

pub open spec fn green_of() -> spec_fn(ColorContainer) -> int {
    |c: ColorContainer| c.g as int
}

pub open spec fn blue_of() -> spec_fn(ColorContainer) -> int {
    |c: ColorContainer| c.b as int
}

pub open spec fn count_of() -> spec_fn(ColorContainer) -> int {
    |c: ColorContainer| c.count as int
}

/// Total pixel count carried by a sequence of buckets.
pub open spec fn sum_counts(s: Seq<ColorContainer>) -> int {
    sum_of(s, count_of())
}

proof fn lemma_sum_of_bounds(s: Seq<ColorContainer>, f: spec_fn(ColorContainer) -> int, hi: int)
    requires
        forall|c: ColorContainer| 0 <= #[trigger] f(c) <= hi,
        hi >= 0,
    ensures
        0 <= sum_of(s, f) <= s.len() * hi,
    decreases s.len(),
{
    if s.len() == 0 {
    } else {
        lemma_sum_of_bounds(s.drop_last(), f, hi);
        assert((s.len() - 1) * hi + hi == s.len() * hi) by (nonlinear_arith);
    }
}

proof fn lemma_sum_of_take_succ(s: Seq<ColorContainer>, f: spec_fn(ColorContainer) -> int, i: int)
    requires
        0 <= i < s.len(),
    ensures
        sum_of(s.take(i + 1), f) == sum_of(s.take(i), f) + f(s[i]),
{
    assert(s.take(i + 1).drop_last() =~= s.take(i));
    assert(s.take(i + 1).last() == s[i]);
}

proof fn lemma_sum_of_take_full(s: Seq<ColorContainer>, f: spec_fn(ColorContainer) -> int)
    ensures
        sum_of(s.take(s.len() as int), f) == sum_of(s, f),
{
    assert(s.take(s.len() as int) =~= s);
}

/// A prefix never carries more than the whole, as long as the projection is
/// nonnegative.
proof fn lemma_sum_of_take_le(s: Seq<ColorContainer>, f: spec_fn(ColorContainer) -> int, i: int)
    requires
        0 <= i <= s.len(),
        forall|c: ColorContainer| 0 <= #[trigger] f(c),
    ensures
        sum_of(s.take(i), f) <= sum_of(s, f),
    decreases s.len() - i,
{
    if i == s.len() {
        lemma_sum_of_take_full(s, f);
    } else {
        lemma_sum_of_take_succ(s, f, i);
        lemma_sum_of_take_le(s, f, i + 1);
    }
}

/// The centroid that mean aggregation gives a non-empty group: each channel
/// is the integer quotient of the channel sum by the member count, and the
/// count is the sum of the members' counts.
pub open spec fn mean_spec(s: Seq<ColorContainer>) -> ColorContainer
    recommends
        s.len() > 0,
{
    ColorContainer {
        r: (sum_of(s, red_of()) / s.len() as int) as u8,
        g: (sum_of(s, green_of()) / s.len() as int) as u8,
        b: (sum_of(s, blue_of()) / s.len() as int) as u8,
        count: sum_counts(s) as u32,
    }
}

/// Mean aggregation over one non-empty cluster.
pub fn mean(colors: &Vec<ColorContainer>) -> (c: ColorContainer)
    requires
        colors@.len() > 0,
        colors@.len() <= u32::MAX,
        sum_counts(colors@) <= u32::MAX,
    ensures
        c == mean_spec(colors@),
{
    let n: usize = colors.len();
    let mut r: u64 = 0;
    let mut g: u64 = 0;
    let mut b: u64 = 0;
    let mut bucket_count: u64 = 0;
    let mut i: usize = 0;
    proof {
        assert(colors@.take(0) =~= Seq::<ColorContainer>::empty());
    }
    while i < n
        invariant
            n == colors@.len() <= u32::MAX,
            sum_counts(colors@) <= u32::MAX,
            i <= n,
            r == sum_of(colors@.take(i as int), red_of()),
            g == sum_of(colors@.take(i as int), green_of()),
            b == sum_of(colors@.take(i as int), blue_of()),
            bucket_count == sum_counts(colors@.take(i as int)),
        decreases n - i,
    {
        proof {
            lemma_sum_of_bounds(colors@.take(i as int), red_of(), 255);
            lemma_sum_of_bounds(colors@.take(i as int), green_of(), 255);
            lemma_sum_of_bounds(colors@.take(i as int), blue_of(), 255);
            assert(colors@.take(i as int).len() * 255 <= colors@.len() * 255) by (nonlinear_arith)
                requires
                    colors@.take(i as int).len() <= colors@.len(),
            ;
            lemma_sum_of_take_le(colors@, count_of(), i as int);
            lemma_sum_of_take_succ(colors@, red_of(), i as int);
            lemma_sum_of_take_succ(colors@, green_of(), i as int);
            lemma_sum_of_take_succ(colors@, blue_of(), i as int);
            lemma_sum_of_take_succ(colors@, count_of(), i as int);
            lemma_sum_of_bounds(colors@.take(i as int), count_of(), u32::MAX as int);
        }
        let c = colors[i];
        r = r + c.r as u64;
        g = g + c.g as u64;
        b = b + c.b as u64;
        bucket_count = bucket_count + c.count as u64;
        i = i + 1;
    }
    proof {
        lemma_sum_of_take_full(colors@, red_of());
        lemma_sum_of_take_full(colors@, green_of());
        lemma_sum_of_take_full(colors@, blue_of());
        lemma_sum_of_take_full(colors@, count_of());
        lemma_sum_of_bounds(colors@, red_of(), 255);
        lemma_sum_of_bounds(colors@, green_of(), 255);
        lemma_sum_of_bounds(colors@, blue_of(), 255);
        assert(r / (n as u64) <= 255 && g / (n as u64) <= 255 && b / (n as u64) <= 255)
            by (nonlinear_arith)
            requires
                n > 0,
                0 <= r <= n * 255,
                0 <= g <= n * 255,
                0 <= b <= n * 255,
        ;
    }
    ColorContainer {
        r: (r / n as u64) as u8,
        g: (g / n as u64) as u8,
        b: (b / n as u64) as u8,
        count: bucket_count as u32,
    }
}

pub open spec fn u8_leq() -> spec_fn(u8, u8) -> bool {
    |x: u8, y: u8| x <= y
}

/// Sorted insertion of one channel value, placed after any equal values.
pub open spec fn insert_sorted_u8(s: Seq<u8>, x: u8) -> Seq<u8>
    decreases s.len(),
{
    if s.len() == 0 {
        seq![x]
    } else if s[0] <= x {
        seq![s[0]] + insert_sorted_u8(s.drop_first(), x)
    } else {
        seq![x] + s
    }
}

/// Ascending sort of channel values, as iterated sorted insertion.
pub open spec fn sort_asc(s: Seq<u8>) -> Seq<u8>
    decreases s.len(),
{
    if s.len() == 0 {
        Seq::empty()
    } else {
        insert_sorted_u8(sort_asc(s.drop_last()), s.last())
    }
}

proof fn lemma_insert_sorted_u8_ensures(s: Seq<u8>, x: u8)
    requires
        vstd::relations::sorted_by(s, u8_leq()),
    ensures
        vstd::relations::sorted_by(insert_sorted_u8(s, x), u8_leq()),
        insert_sorted_u8(s, x).to_multiset() == s.to_multiset().insert(x),
        insert_sorted_u8(s, x).len() == s.len() + 1,
    decreases s.len(),
{
    broadcast use vstd::seq_lib::group_to_multiset_ensures;

    if s.len() == 0 {
        assert(insert_sorted_u8(s, x) =~= Seq::empty().push(x));
        assert(insert_sorted_u8(s, x).to_multiset() =~= s.to_multiset().insert(x));
    } else if s[0] <= x {
        let rest = s.drop_first();
        assert(forall|i: int, j: int| 0 <= i < j < rest.len() ==> #[trigger] u8_leq()(
            rest[i],
            rest[j],
        )) by {
            assert(forall|i: int, j: int|
                0 <= i < j < s.len() ==> #[trigger] u8_leq()(s[i], s[j]));
        }
        lemma_insert_sorted_u8_ensures(rest, x);
        let inner = insert_sorted_u8(rest, x);
        assert(inner[0] == if rest.len() > 0 && rest[0] <= x {
            rest[0]
        } else {
            x
        });
        assert(u8_leq()(s[0], inner[0]));
        vstd::relations::lemma_new_first_element_still_sorted_by(s[0], inner, u8_leq());
        assert(insert_sorted_u8(s, x) =~= seq![s[0]].add(inner));
        assert(insert_sorted_u8(s, x) =~= Seq::empty().push(s[0]) + inner);
        assert((Seq::empty().push(s[0]) + inner).to_multiset() =~= inner.to_multiset().insert(
            s[0],
        )) by {
            vstd::seq_lib::lemma_multiset_commutative(Seq::empty().push(s[0]), inner);
        }
        assert(s =~= Seq::empty().push(s[0]) + rest);
        vstd::seq_lib::lemma_multiset_commutative(Seq::empty().push(s[0]), rest);
        assert(insert_sorted_u8(s, x).to_multiset() =~= s.to_multiset().insert(x));
    } else {
        vstd::relations::lemma_new_first_element_still_sorted_by(x, s, u8_leq());
        assert(insert_sorted_u8(s, x) =~= seq![x].add(s));
        assert(insert_sorted_u8(s, x) =~= Seq::empty().push(x) + s);
        vstd::seq_lib::lemma_multiset_commutative(Seq::empty().push(x), s);
        assert(insert_sorted_u8(s, x).to_multiset() =~= s.to_multiset().insert(x));
    }
}

proof fn lemma_sort_asc_ensures(s: Seq<u8>)
    ensures
        vstd::relations::sorted_by(sort_asc(s), u8_leq()),
        sort_asc(s).to_multiset() == s.to_multiset(),
        sort_asc(s).len() == s.len(),
    decreases s.len(),
{
    broadcast use vstd::seq_lib::group_to_multiset_ensures;

    if s.len() == 0 {
    } else {
        lemma_sort_asc_ensures(s.drop_last());
        lemma_insert_sorted_u8_ensures(sort_asc(s.drop_last()), s.last());
        assert(s =~= s.drop_last().push(s.last()));
        assert(s.drop_last().push(s.last()).to_multiset() =~= s.drop_last().to_multiset().insert(
            s.last(),
        ));
    }
}

proof fn lemma_insert_sorted_u8_at(s: Seq<u8>, x: u8, p: int)
    requires
        0 <= p <= s.len(),
        forall|j: int| 0 <= j < p ==> s[j] <= x,
        p < s.len() ==> s[p] > x,
    ensures
        insert_sorted_u8(s, x) =~= s.insert(p, x),
    decreases s.len(),
{
    if s.len() == 0 {
    } else if p == 0 {
    } else {
        lemma_insert_sorted_u8_at(s.drop_first(), x, p - 1);
    }
}

/// Inserts `x` into an already sorted vector of channel values.
fn sorted_insert_u8(v: &mut Vec<u8>, x: u8)
    ensures
        final(v)@ == insert_sorted_u8(old(v)@, x),
{
    let mut pos: usize = 0;
    while pos < v.len() && v[pos] <= x
        invariant
            pos <= v@.len(),
            forall|j: int| 0 <= j < pos ==> v@[j] <= x,
            v == old(v),
        decreases v@.len() - pos,
    {
        pos = pos + 1;
    }
    proof {
        lemma_insert_sorted_u8_at(v@, x, pos as int);
    }
    v.insert(pos, x);
}

/// Sorts channel values ascending; the result is the spec-level sort of the
/// input.
fn sort_u8(v: &Vec<u8>) -> (r: Vec<u8>)
    ensures
        r@ == sort_asc(v@),
{
    let mut out: Vec<u8> = Vec::new();
    let mut i: usize = 0;
    proof {
        assert(v@.take(0) =~= Seq::<u8>::empty());
    }
    while i < v.len()
        invariant
            i <= v@.len(),
            out@ == sort_asc(v@.take(i as int)),
        decreases v@.len() - i,
    {
        proof {
            assert(v@.take(i + 1).drop_last() =~= v@.take(i as int));
            assert(v@.take(i + 1).last() == v@[i as int]);
        }
        sorted_insert_u8(&mut out, v[i]);
        i = i + 1;
    }
    proof {
        assert(v@.take(v@.len() as int) =~= v@);
    }
    out
}

pub open spec fn red8_of() -> spec_fn(ColorContainer) -> u8 {
    |c: ColorContainer| c.r
}

pub open spec fn green8_of() -> spec_fn(ColorContainer) -> u8 {
    |c: ColorContainer| c.g
}

pub open spec fn blue8_of() -> spec_fn(ColorContainer) -> u8 {
    |c: ColorContainer| c.b
}

/// The value median aggregation gives one channel: sort that channel's
/// values across the members and take the element at index `len / 2` (the
/// upper middle one when the member count is even).
pub open spec fn median_channel(vals: Seq<u8>) -> u8
    recommends
        vals.len() > 0,
{
    sort_asc(vals)[vals.len() as int / 2]
}

/// The centroid that median aggregation gives a group: each channel is the
/// median of that channel's values independently, so the result need not
/// match any member color; an empty group yields the zero centroid.
pub open spec fn median_spec(s: Seq<ColorContainer>) -> ColorContainer {
    if s.len() == 0 {
        ColorContainer { r: 0, g: 0, b: 0, count: 0 }
    } else {
        ColorContainer {
            r: median_channel(s.map_values(red8_of())),
            g: median_channel(s.map_values(green8_of())),
            b: median_channel(s.map_values(blue8_of())),
            count: sum_counts(s) as u32,
        }
    }
}

/// Median aggregation over one cluster, channel by channel.
pub fn median(colors: &Vec<ColorContainer>) -> (c: ColorContainer)
    requires
        sum_counts(colors@) <= u32::MAX,
    ensures
        c == median_spec(colors@),
{
    let n: usize = colors.len();
    let mut rs: Vec<u8> = Vec::new();
    let mut gs: Vec<u8> = Vec::new();
    let mut bs: Vec<u8> = Vec::new();
    let mut bucket_count: u64 = 0;
    let mut i: usize = 0;
    proof {
        assert(colors@.take(0) =~= Seq::<ColorContainer>::empty());
        assert(colors@.take(0).map_values(red8_of()) =~= Seq::<u8>::empty());
    }
    while i < n
        invariant
            n == colors@.len(),
            sum_counts(colors@) <= u32::MAX,
            i <= n,
            rs@ == colors@.take(i as int).map_values(red8_of()),
            gs@ == colors@.take(i as int).map_values(green8_of()),
            bs@ == colors@.take(i as int).map_values(blue8_of()),
            bucket_count == sum_counts(colors@.take(i as int)),
        decreases n - i,
    {
        proof {
            lemma_sum_of_take_le(colors@, count_of(), i as int);
            lemma_sum_of_take_succ(colors@, count_of(), i as int);
            lemma_sum_of_bounds(colors@.take(i as int), count_of(), u32::MAX as int);
            assert(colors@.take(i + 1) =~= colors@.take(i as int).push(colors@[i as int]));
            assert(colors@.take(i + 1).map_values(red8_of()) =~= colors@.take(
                i as int,
            ).map_values(red8_of()).push(colors@[i as int].r));
            assert(colors@.take(i + 1).map_values(green8_of()) =~= colors@.take(
                i as int,
            ).map_values(green8_of()).push(colors@[i as int].g));
            assert(colors@.take(i + 1).map_values(blue8_of()) =~= colors@.take(
                i as int,
            ).map_values(blue8_of()).push(colors@[i as int].b));
        }
        let c = colors[i];
        rs.push(c.r);
        gs.push(c.g);
        bs.push(c.b);
        bucket_count = bucket_count + c.count as u64;
        i = i + 1;
    }
    proof {
        assert(colors@.take(n as int) =~= colors@);
        lemma_sum_of_take_full(colors@, count_of());
    }
    let mut midpoint_r: u8 = 0;
    let mut midpoint_g: u8 = 0;
    let mut midpoint_b: u8 = 0;
    if rs.len() > 0 {
        proof {
            lemma_sort_asc_ensures(rs@);
            lemma_sort_asc_ensures(gs@);
            lemma_sort_asc_ensures(bs@);
        }
        let sorted_r = sort_u8(&rs);
        let sorted_g = sort_u8(&gs);
        let sorted_b = sort_u8(&bs);
        midpoint_r = sorted_r[sorted_r.len() / 2];
        midpoint_g = sorted_g[sorted_g.len() / 2];
        midpoint_b = sorted_b[sorted_b.len() / 2];
    }
    ColorContainer { r: midpoint_r, g: midpoint_g, b: midpoint_b, count: bucket_count as u32 }
}

/// Centroids ordered by descending aggregate member pixel count.
pub open spec fn sorted_by_count_desc(s: Seq<ColorContainer>) -> bool {
    forall|i: int, j: int|
        0 <= i < j < s.len() ==> (#[trigger] s[i].count) >= (#[trigger] s[j].count)
}

/// Stable descending insertion: the new element goes after every element
/// whose count is at least as large, so equal counts keep their prior
/// relative order.
pub open spec fn insert_desc(s: Seq<ColorContainer>, x: ColorContainer) -> Seq<ColorContainer>
    decreases s.len(),
{
    if s.len() == 0 {
        seq![x]
    } else if s[0].count >= x.count {
        seq![s[0]] + insert_desc(s.drop_first(), x)
    } else {
        seq![x] + s
    }
}

/// Stable sort by descending count, as iterated stable insertion.
pub open spec fn sort_desc(s: Seq<ColorContainer>) -> Seq<ColorContainer>
    decreases s.len(),
{
    if s.len() == 0 {
        Seq::empty()
    } else {
        insert_desc(sort_desc(s.drop_last()), s.last())
    }
}

proof fn lemma_sum_of_cons(x: ColorContainer, t: Seq<ColorContainer>, f: spec_fn(
    ColorContainer,
) -> int)
    ensures
        sum_of(seq![x] + t, f) == f(x) + sum_of(t, f),
    decreases t.len(),
{
    if t.len() == 0 {
        assert(seq![x] + t =~= seq![x]);
        assert(t =~= Seq::<ColorContainer>::empty());
        assert(seq![x].drop_last() =~= Seq::<ColorContainer>::empty());
        assert(sum_of(Seq::<ColorContainer>::empty(), f) == 0);
        assert(seq![x].last() == x);
        assert(sum_of(seq![x], f) == f(x));
    } else {
        assert((seq![x] + t).drop_last() =~= seq![x] + t.drop_last());
        assert((seq![x] + t).last() == t.last());
        lemma_sum_of_cons(x, t.drop_last(), f);
    }
}

proof fn lemma_insert_desc_ensures(s: Seq<ColorContainer>, x: ColorContainer)
    requires
        sorted_by_count_desc(s),
    ensures
        sorted_by_count_desc(insert_desc(s, x)),
        insert_desc(s, x).to_multiset() == s.to_multiset().insert(x),
        insert_desc(s, x).len() == s.len() + 1,
        sum_counts(insert_desc(s, x)) == sum_counts(s) + x.count,
    decreases s.len(),
{
    broadcast use vstd::seq_lib::group_to_multiset_ensures;

    if s.len() == 0 {
        assert(insert_desc(s, x) =~= Seq::empty().push(x));
        assert(insert_desc(s, x).to_multiset() =~= s.to_multiset().insert(x));
        assert(seq![x] =~= seq![x] + Seq::<ColorContainer>::empty());
        lemma_sum_of_cons(x, Seq::empty(), count_of());
    } else if s[0].count >= x.count {
        let rest = s.drop_first();
        lemma_insert_desc_ensures(rest, x);
        let inner = insert_desc(rest, x);
        assert(inner[0] == if rest.len() > 0 && rest[0].count >= x.count {
            rest[0]
        } else {
            x
        });
        assert(insert_desc(s, x) =~= seq![s[0]] + inner);
        assert(forall|i: int, j: int|
            0 <= i < j < inner.len() ==> (#[trigger] inner[i].count) >= (
            #[trigger] inner[j].count));
        assert(s[0].count >= inner[0].count);
        assert(sorted_by_count_desc(seq![s[0]] + inner)) by {
            assert(forall|j: int|
                1 <= j < inner.len() + 1 ==> (seq![s[0]] + inner)[0].count >= (#[trigger] (seq![
                    s[0],
                ] + inner)[j]).count) by {
                assert(forall|j: int|
                    1 <= j < inner.len() ==> inner[0].count >= (#[trigger] inner[j]).count);
            }
        }
        assert(insert_desc(s, x) =~= Seq::empty().push(s[0]) + inner);
        vstd::seq_lib::lemma_multiset_commutative(Seq::empty().push(s[0]), inner);
        assert(s =~= Seq::empty().push(s[0]) + rest);
        vstd::seq_lib::lemma_multiset_commutative(Seq::empty().push(s[0]), rest);
        assert(insert_desc(s, x).to_multiset() =~= s.to_multiset().insert(x));
        lemma_sum_of_cons(s[0], inner, count_of());
        lemma_sum_of_cons(s[0], rest, count_of());
    } else {
        assert(insert_desc(s, x) =~= seq![x] + s);
        assert(sorted_by_count_desc(seq![x] + s)) by {
            assert(forall|j: int|
                1 <= j < s.len() + 1 ==> (seq![x] + s)[0].count >= (#[trigger] (seq![x]
                    + s)[j]).count) by {
                assert(forall|j: int| 1 <= j < s.len() ==> s[0].count >= (#[trigger] s[j]).count);
            }
        }
        assert(insert_desc(s, x) =~= Seq::empty().push(x) + s);
        vstd::seq_lib::lemma_multiset_commutative(Seq::empty().push(x), s);
        assert(insert_desc(s, x).to_multiset() =~= s.to_multiset().insert(x));
        lemma_sum_of_cons(x, s, count_of());
    }
}

/// What stable descending sorting guarantees: the order, the same elements,
/// and the same total count.
pub proof fn lemma_sort_desc_ensures(s: Seq<ColorContainer>)
    ensures
        sorted_by_count_desc(sort_desc(s)),
        sort_desc(s).to_multiset() == s.to_multiset(),
        sort_desc(s).len() == s.len(),
        sum_counts(sort_desc(s)) == sum_counts(s),
    decreases s.len(),
{
    broadcast use vstd::seq_lib::group_to_multiset_ensures;

    if s.len() == 0 {
    } else {
        lemma_sort_desc_ensures(s.drop_last());
        lemma_insert_desc_ensures(sort_desc(s.drop_last()), s.last());
        assert(s =~= s.drop_last().push(s.last()));
        assert(s.drop_last().push(s.last()).to_multiset() =~= s.drop_last().to_multiset().insert(
            s.last(),
        ));
    }
}

proof fn lemma_insert_desc_at(s: Seq<ColorContainer>, x: ColorContainer, p: int)
    requires
        0 <= p <= s.len(),
        forall|j: int| 0 <= j < p ==> s[j].count >= x.count,
        p < s.len() ==> s[p].count < x.count,
    ensures
        insert_desc(s, x) =~= s.insert(p, x),
    decreases s.len(),
{
    if s.len() == 0 {
    } else if p == 0 {
    } else {
        lemma_insert_desc_at(s.drop_first(), x, p - 1);
    }
}

fn sorted_insert_desc(v: &mut Vec<ColorContainer>, x: ColorContainer)
    ensures
        final(v)@ == insert_desc(old(v)@, x),
{
    let mut pos: usize = 0;
    while pos < v.len() && v[pos].count >= x.count
        invariant
            pos <= v@.len(),
            forall|j: int| 0 <= j < pos ==> v@[j].count >= x.count,
            v == old(v),
        decreases v@.len() - pos,
    {
        pos = pos + 1;
    }
    proof {
        lemma_insert_desc_at(v@, x, pos as int);
    }
    v.insert(pos, x);
}

/// Orders centroids by descending aggregate member pixel count; centroids
/// with equal counts keep their prior relative order.
pub fn sort_by_count_desc(v: &Vec<ColorContainer>) -> (r: Vec<ColorContainer>)
    ensures
        r@ == sort_desc(v@),
{
    let mut out: Vec<ColorContainer> = Vec::new();
    let mut i: usize = 0;
    proof {
        assert(v@.take(0) =~= Seq::<ColorContainer>::empty());
    }
    while i < v.len()
        invariant
            i <= v@.len(),
            out@ == sort_desc(v@.take(i as int)),
        decreases v@.len() - i,
    {
        proof {
            assert(v@.take(i + 1).drop_last() =~= v@.take(i as int));
            assert(v@.take(i + 1).last() == v@[i as int]);
        }
        sorted_insert_desc(&mut out, v[i]);
        i = i + 1;
    }
    proof {
        assert(v@.take(v@.len() as int) =~= v@);
    }
    out
}

/// The centroid one group yields under the chosen aggregation mode. An
/// empty group yields the zero centroid in either mode.
pub open spec fn centroid_spec(group: Seq<ColorContainer>, is_mean: bool) -> ColorContainer {
    if is_mean && group.len() > 0 {
        mean_spec(group)
    } else {
        median_spec(group)
    }
}

/// Recomputes every group's centroid after a partition pass.
pub fn calculate_centroids(buffer: &Vec<Vec<ColorContainer>>, is_mean: bool) -> (r: Vec<
    ColorContainer,
>)
    requires
        forall|i: int|
            0 <= i < buffer@.len() ==> sum_counts(#[trigger] buffer@[i]@) <= u32::MAX,
        forall|i: int| 0 <= i < buffer@.len() ==> #[trigger] buffer@[i]@.len() <= u32::MAX,
    ensures
        r@.len() == buffer@.len(),
        forall|i: int| 0 <= i < buffer@.len() ==> r@[i] == centroid_spec(buffer@[i]@, is_mean),
{
    let mut new_centroids: Vec<ColorContainer> = Vec::new();
    let mut i: usize = 0;
    while i < buffer.len()
        invariant
            i <= buffer@.len(),
            new_centroids@.len() == i,
            forall|j: int|
                0 <= j < i ==> new_centroids@[j] == centroid_spec(buffer@[j]@, is_mean),
            forall|j: int|
                0 <= j < buffer@.len() ==> sum_counts(#[trigger] buffer@[j]@) <= u32::MAX,
            forall|j: int| 0 <= j < buffer@.len() ==> #[trigger] buffer@[j]@.len() <= u32::MAX,
        decreases buffer@.len() - i,
    {
        let group = &buffer[i];
        let centroid: ColorContainer;
        if is_mean && group.len() > 0 {
            centroid = mean(group);
        } else {
            centroid = median(group);
        }
        new_centroids.push(centroid);
        i = i + 1;
    }
    new_centroids
}

pub open spec fn rgb_of(p: Pixel) -> (u8, u8, u8) {
    (p.r, p.g, p.b)
}

pub open spec fn cc_rgb(c: ColorContainer) -> (u8, u8, u8) {
    (c.r, c.g, c.b)
}

/// The distinct colors of the opaque pixels of a raster; transparent pixels
/// contribute nothing.
pub open spec fn colors_of(s: Seq<Pixel>) -> Set<(u8, u8, u8)>
    decreases s.len(),
{
    if s.len() == 0 {
        Set::empty()
    } else if s.last().a != 0 {
        colors_of(s.drop_last()).insert(rgb_of(s.last()))
    } else {
        colors_of(s.drop_last())
    }
}

/// How many opaque pixels carry exactly this color.
pub open spec fn count_rgb(s: Seq<Pixel>, rgb: (u8, u8, u8)) -> int
    decreases s.len(),
{
    if s.len() == 0 {
        0
    } else {
        count_rgb(s.drop_last(), rgb) + if s.last().a != 0 && rgb_of(s.last()) == rgb {
            1int
        } else {
            0int
        }
    }
}

/// How many pixels are opaque at all.
pub open spec fn opaque_count(s: Seq<Pixel>) -> int
    decreases s.len(),
{
    if s.len() == 0 {
        0
    } else {
        opaque_count(s.drop_last()) + if s.last().a != 0 {
            1int
        } else {
            0int
        }
    }
}

proof fn lemma_colors_of_finite(s: Seq<Pixel>)
    ensures
        colors_of(s).finite(),
    decreases s.len(),
{
    if s.len() > 0 {
        lemma_colors_of_finite(s.drop_last());
    }
}

proof fn lemma_count_rgb_bounds(s: Seq<Pixel>, rgb: (u8, u8, u8))
    ensures
        0 <= count_rgb(s, rgb) <= opaque_count(s) <= s.len(),
    decreases s.len(),
{
    if s.len() > 0 {
        lemma_count_rgb_bounds(s.drop_last(), rgb);
    }
}

/// A color is among the distinct colors exactly when some opaque pixel
/// carries it.
proof fn lemma_colors_of_count(s: Seq<Pixel>, rgb: (u8, u8, u8))
    ensures
        colors_of(s).contains(rgb) <==> count_rgb(s, rgb) > 0,
    decreases s.len(),
{
    if s.len() > 0 {
        lemma_colors_of_count(s.drop_last(), rgb);
        lemma_count_rgb_bounds(s.drop_last(), rgb);
    }
}

proof fn lemma_pixels_take_succ(s: Seq<Pixel>, i: int)
    requires
        0 <= i < s.len(),
    ensures
        colors_of(s.take(i + 1)) == if s[i].a != 0 {
            colors_of(s.take(i)).insert(rgb_of(s[i]))
        } else {
            colors_of(s.take(i))
        },
        forall|rgb: (u8, u8, u8)|
            #[trigger] count_rgb(s.take(i + 1), rgb) == count_rgb(s.take(i), rgb) + (
            if s[i].a != 0 && rgb_of(s[i]) == rgb {
                1int
            } else {
                0int
            }),
        opaque_count(s.take(i + 1)) == opaque_count(s.take(i)) + (if s[i].a != 0 {
            1int
        } else {
            0int
        }),
{
    assert(s.take(i + 1).drop_last() =~= s.take(i));
    assert(s.take(i + 1).last() == s[i]);
    assert(s.take(i + 1).len() == i + 1);
}

proof fn lemma_take_full_pixels(s: Seq<Pixel>)
    ensures
        s.take(s.len() as int) == s,
{
    assert(s.take(s.len() as int) =~= s);
}

proof fn lemma_sum_of_update(
    s: Seq<ColorContainer>,
    i: int,
    x: ColorContainer,
    f: spec_fn(ColorContainer) -> int,
)
    requires
        0 <= i < s.len(),
    ensures
        sum_of(s.update(i, x), f) == sum_of(s, f) - f(s[i]) + f(x),
    decreases s.len(),
{
    if i == s.len() - 1 {
        assert(s.update(i, x).drop_last() =~= s.drop_last());
        assert(s.update(i, x).last() == x);
    } else {
        assert(s.update(i, x).drop_last() =~= s.drop_last().update(i, x));
        assert(s.update(i, x).last() == s.last());
        lemma_sum_of_update(s.drop_last(), i, x, f);
    }
}

proof fn lemma_sum_of_push(s: Seq<ColorContainer>, x: ColorContainer, f: spec_fn(
    ColorContainer,
) -> int)
    ensures
        sum_of(s.push(x), f) == sum_of(s, f) + f(x),
{
    assert(s.push(x).drop_last() =~= s);
    assert(s.push(x).last() == x);
}

/// The 24-bit integer that stands for a color when it keys the histogram
/// map.
pub open spec fn key_spec(rgb: (u8, u8, u8)) -> int {
    rgb.0 * 65536 + rgb.1 * 256 + rgb.2
}

proof fn lemma_key_injective(a: (u8, u8, u8), b: (u8, u8, u8))
    requires
        key_spec(a) == key_spec(b),
    ensures
        a == b,
{
    assert(a.0 == b.0 && a.1 == b.1 && a.2 == b.2);
}

/// What it means for a sequence of buckets to be the histogram of a pixel
/// sequence: every bucket carries a distinct opaque color with its exact
/// pixel count, and every distinct opaque color has a bucket.
pub open spec fn is_histogram(pixels: Seq<Pixel>, hist: Seq<ColorContainer>) -> bool {
    &&& forall|i: int|
        0 <= i < hist.len() ==> colors_of(pixels).contains(#[trigger] cc_rgb(hist[i]))
    &&& forall|i: int|
        0 <= i < hist.len() ==> (#[trigger] hist[i]).count == count_rgb(pixels, cc_rgb(hist[i]))
            && hist[i].count > 0
    &&& forall|i: int, j: int| 0 <= i < j < hist.len() ==> cc_rgb(hist[i]) != cc_rgb(hist[j])
    &&& forall|rgb: (u8, u8, u8)|
        colors_of(pixels).contains(rgb) ==> exists|i: int|
            0 <= i < hist.len() && cc_rgb(#[trigger] hist[i]) == rgb
}

/// Reduces a raster to its histogram: one bucket per distinct opaque color,
/// holding the exact number of pixels that carry it. Transparent pixels are
/// skipped entirely. Buckets appear in order of each color's first
/// occurrence.
pub fn get_unique_colors(image: Raster) -> (v: Vec<ColorContainer>)
    requires
        image.pixels@.len() <= u32::MAX,
    ensures
        v@.len() == colors_of(image.pixels@).len(),
        is_histogram(image.pixels@, v@),
        sum_counts(v@) == opaque_count(image.pixels@),
{
    let ghost s = image.pixels@;
    let mut color_map: HashMap<u32, usize> = HashMap::new();
    let mut colors: Vec<ColorContainer> = Vec::new();
    let mut i: usize = 0;
    let n: usize = image.pixels.len();
    proof {
        assert(s.take(0) =~= Seq::<Pixel>::empty());
    }
    while i < n
        invariant
            s == image.pixels@,
            n == s.len() <= u32::MAX,
            i <= n,
            colors@.len() == colors_of(s.take(i as int)).len(),
            colors_of(s.take(i as int)).finite(),
            forall|idx: int|
                0 <= idx < colors@.len() ==> colors_of(s.take(i as int)).contains(
                    #[trigger] cc_rgb(colors@[idx]),
                ),
            forall|idx: int|
                0 <= idx < colors@.len() ==> (#[trigger] colors@[idx]).count == count_rgb(
                    s.take(i as int),
                    cc_rgb(colors@[idx]),
                ) && colors@[idx].count > 0,
            forall|idx: int|
                0 <= idx < colors@.len() ==> color_map@.contains_key(
                    (#[trigger] key_spec(cc_rgb(colors@[idx]))) as u32,
                ) && color_map@[key_spec(cc_rgb(colors@[idx])) as u32] == idx,
            forall|k: u32|
                color_map@.contains_key(k) ==> #[trigger] color_map@[k] < colors@.len()
                    && key_spec(cc_rgb(colors@[color_map@[k] as int])) == k,
            forall|idx1: int, idx2: int|
                0 <= idx1 < idx2 < colors@.len() ==> cc_rgb(colors@[idx1]) != cc_rgb(
                    colors@[idx2],
                ),
            forall|rgb: (u8, u8, u8)| #[trigger]
                colors_of(s.take(i as int)).contains(rgb) <==> color_map@.contains_key(
                    key_spec(rgb) as u32,
                ),
            sum_counts(colors@) == opaque_count(s.take(i as int)),
        decreases n - i,
    {
        proof {
            lemma_pixels_take_succ(s, i as int);
            lemma_colors_of_finite(s.take(i as int));
        }
        let p: Pixel = image.pixels[i];
        if p.a != 0 {
            let key: u32 = (p.r as u32) * 65536 + (p.g as u32) * 256 + (p.b as u32);
            assert(key == key_spec(rgb_of(p)));
            let existing: Option<&usize> = color_map.get(&key);
            match existing {
                Some(idx_ref) => {
                    let idx: usize = *idx_ref;
                    let ghost oldv = colors@;
                    let old_c: ColorContainer = colors[idx];
                    proof {
                        lemma_key_injective(cc_rgb(oldv[idx as int]), rgb_of(p));
                        lemma_count_rgb_bounds(s.take(i as int), rgb_of(p));
                        lemma_sum_of_update(
                            oldv,
                            idx as int,
                            ColorContainer {
                                r: old_c.r,
                                g: old_c.g,
                                b: old_c.b,
                                count: (old_c.count + 1) as u32,
                            },
                            count_of(),
                        );
                        assert(colors_of(s.take(i as int)).insert(rgb_of(p)) =~= colors_of(
                            s.take(i as int),
                        ));
                    }
                    let updated = ColorContainer {
                        r: old_c.r,
                        g: old_c.g,
                        b: old_c.b,
                        count: old_c.count + 1,
                    };
                    colors.set(idx, updated);
                    proof {
                        let newv = colors@;
                        assert(cc_rgb(newv[idx as int]) == rgb_of(p));
                        assert forall|idx2: int|
                            0 <= idx2 < newv.len() && idx2 != idx implies cc_rgb(
                            #[trigger] newv[idx2],
                        ) != rgb_of(p) by {
                            assert(newv[idx2] == oldv[idx2]);
                            if idx2 < idx as int {
                                assert(cc_rgb(oldv[idx2]) != cc_rgb(oldv[idx as int]));
                            } else {
                                assert(cc_rgb(oldv[idx as int]) != cc_rgb(oldv[idx2]));
                            }
                        }
                        assert forall|idx2: int| 0 <= idx2 < newv.len() implies (
                        #[trigger] newv[idx2]).count == count_rgb(
                            s.take(i + 1),
                            cc_rgb(newv[idx2]),
                        ) && newv[idx2].count > 0 by {
                            if idx2 == idx as int {
                                assert(count_rgb(s.take(i + 1), rgb_of(p)) == count_rgb(
                                    s.take(i as int),
                                    rgb_of(p),
                                ) + 1);
                            } else {
                                assert(newv[idx2] == oldv[idx2]);
                                assert(count_rgb(s.take(i + 1), cc_rgb(newv[idx2])) == count_rgb(
                                    s.take(i as int),
                                    cc_rgb(newv[idx2]),
                                ));
                            }
                        }
                    }
                },
                None => {
                    let idx: usize = colors.len();
                    let fresh = ColorContainer { r: p.r, g: p.g, b: p.b, count: 1 };
                    let ghost oldv = colors@;
                    let ghost oldm = color_map@;
                    proof {
                        lemma_colors_of_count(s.take(i as int), rgb_of(p));
                        lemma_count_rgb_bounds(s.take(i as int), rgb_of(p));
                        lemma_sum_of_push(oldv, fresh, count_of());
                        assert forall|idx2: int| 0 <= idx2 < oldv.len() implies cc_rgb(
                            #[trigger] oldv[idx2],
                        ) != rgb_of(p) by {
                            if cc_rgb(oldv[idx2]) == rgb_of(p) {
                                assert(oldm.contains_key(key_spec(cc_rgb(oldv[idx2])) as u32));
                            }
                        }
                    }
                    colors.push(fresh);
                    color_map.insert(key, idx);
                    proof {
                        let newv = colors@;
                        let newm = color_map@;
                        assert(newv =~= oldv.push(fresh));
                        assert(newm =~= oldm.insert(key, idx as usize));
                        assert(colors_of(s.take(i + 1)) =~= colors_of(s.take(i as int)).insert(
                            rgb_of(p),
                        ));
                        // the fresh color was absent, so the set grows by one
                        assert(!colors_of(s.take(i as int)).contains(rgb_of(p)));
                        // map-to-vector correspondence for every key of the new map
                        assert forall|k: u32| newm.contains_key(k) implies #[trigger] newm[k]
                            < newv.len() && key_spec(cc_rgb(newv[newm[k] as int])) == k by {
                            if k == key {
                                assert(newm[k] == idx);
                                assert(newv[idx as int] == fresh);
                            } else {
                                assert(oldm.contains_key(k));
                                assert(oldm[k] < oldv.len());
                                assert(newv[oldm[k] as int] == oldv[oldm[k] as int]);
                            }
                        }
                        assert forall|idx2: int| 0 <= idx2 < newv.len() implies newm.contains_key(
                            (#[trigger] key_spec(cc_rgb(newv[idx2]))) as u32,
                        ) && newm[key_spec(cc_rgb(newv[idx2])) as u32] == idx2 by {
                            if idx2 == idx as int {
                                assert(cc_rgb(newv[idx2]) == rgb_of(p));
                            } else {
                                assert(newv[idx2] == oldv[idx2]);
                                assert(oldm.contains_key(key_spec(cc_rgb(oldv[idx2])) as u32));
                                assert(key_spec(cc_rgb(oldv[idx2])) as u32 != key);
                            }
                        }
                        // counts of every bucket, old ones unchanged, the new one is 1
                        assert forall|idx2: int| 0 <= idx2 < newv.len() implies (
                        #[trigger] newv[idx2]).count == count_rgb(
                            s.take(i + 1),
                            cc_rgb(newv[idx2]),
                        ) && newv[idx2].count > 0 by {
                            if idx2 == idx as int {
                                assert(count_rgb(s.take(i as int), rgb_of(p)) == 0);
                                assert(count_rgb(s.take(i + 1), rgb_of(p)) == 1);
                            } else {
                                assert(newv[idx2] == oldv[idx2]);
                                assert(cc_rgb(newv[idx2]) != rgb_of(p));
                                assert(count_rgb(s.take(i + 1), cc_rgb(newv[idx2])) == count_rgb(
                                    s.take(i as int),
                                    cc_rgb(newv[idx2]),
                                ));
                            }
                        }
                        // a color sits in the grown set exactly when its key is mapped
                        assert forall|rgb: (u8, u8, u8)| #[trigger]
                            colors_of(s.take(i + 1)).contains(rgb) <==> newm.contains_key(
                            key_spec(rgb) as u32,
                        ) by {
                            if rgb == rgb_of(p) {
                                assert(colors_of(s.take(i + 1)).contains(rgb));
                                assert(newm.contains_key(key));
                            } else {
                                if key_spec(rgb) as u32 == key {
                                    lemma_key_injective(rgb, rgb_of(p));
                                }
                                assert(colors_of(s.take(i + 1)).contains(rgb)
                                    <==> colors_of(s.take(i as int)).contains(rgb));
                            }
                        }
                        // pairwise distinctness extends to the fresh bucket
                        assert forall|idx1: int, idx2: int|
                            0 <= idx1 < idx2 < newv.len() implies cc_rgb(newv[idx1]) != cc_rgb(
                            newv[idx2],
                        ) by {
                            if idx2 == idx as int {
                                assert(newv[idx1] == oldv[idx1]);
                                assert(cc_rgb(oldv[idx1]) != rgb_of(p));
                            } else {
                                assert(newv[idx1] == oldv[idx1]);
                                assert(newv[idx2] == oldv[idx2]);
                            }
                        }
                        // the set was finite and gains one fresh member
                        assert(colors_of(s.take(i + 1)).len() == colors_of(s.take(i as int)).len()
                            + 1);
                    }
                },
            }
        }
        i = i + 1;
    }
    proof {
        lemma_take_full_pixels(s);
        // every recorded color is reachable through its key in the map
        assert forall|rgb: (u8, u8, u8)| colors_of(s).contains(rgb) implies exists|idx: int|
            0 <= idx < colors@.len() && cc_rgb(#[trigger] colors@[idx]) == rgb by {
            assert(color_map@.contains_key(key_spec(rgb) as u32));
            let idx = color_map@[key_spec(rgb) as u32] as int;
            assert(key_spec(cc_rgb(colors@[idx])) == key_spec(rgb) as u32);
            lemma_key_injective(cc_rgb(colors@[idx]), rgb);
            assert(0 <= idx < colors@.len() && cc_rgb(colors@[idx]) == rgb);
        }
    }
    colors
}

/// Total of a sequence of selection weights.
pub open spec fn sum_u64(s: Seq<u64>) -> int
    decreases s.len(),
{
    if s.len() == 0 {
        0
    } else {
        sum_u64(s.drop_last()) + s.last()
    }
}

proof fn lemma_sum_u64_take_succ(s: Seq<u64>, i: int)
    requires
        0 <= i < s.len(),
    ensures
        sum_u64(s.take(i + 1)) == sum_u64(s.take(i)) + s[i],
{
    assert(s.take(i + 1).drop_last() =~= s.take(i));
    assert(s.take(i + 1).last() == s[i]);
}

proof fn lemma_sum_u64_nonneg(s: Seq<u64>)
    ensures
        sum_u64(s) >= 0,
    decreases s.len(),
{
    if s.len() > 0 {
        lemma_sum_u64_nonneg(s.drop_last());
    }
}

proof fn lemma_sum_u64_take_le(s: Seq<u64>, i: int)
    requires
        0 <= i <= s.len(),
    ensures
        sum_u64(s.take(i)) <= sum_u64(s),
        sum_u64(s.take(i)) >= 0,
    decreases s.len() - i,
{
    lemma_sum_u64_nonneg(s.take(i));
    if i == s.len() {
        assert(s.take(i) =~= s);
    } else {
        lemma_sum_u64_take_succ(s, i);
        lemma_sum_u64_take_le(s, i + 1);
    }
}

/// `w` is the squared RGB distance from `c` to its nearest point among
/// `seeds`: some seed sits at exactly that distance, and none sits nearer.
pub open spec fn is_min_weight(seeds: Seq<ColorContainer>, c: ColorContainer, w: int) -> bool {
    &&& exists|j: int| 0 <= j < seeds.len() && w == dist_spec(#[trigger] seeds[j], c)
    &&& forall|j: int| 0 <= j < seeds.len() ==> dist_spec(#[trigger] seeds[j], c) >= w
}

/// The set of colors a bucket sequence carries.
pub open spec fn rgb_set(s: Seq<ColorContainer>) -> Set<(u8, u8, u8)>
    decreases s.len(),
{
    if s.len() == 0 {
        Set::empty()
    } else {
        rgb_set(s.drop_last()).insert(cc_rgb(s.last()))
    }
}

proof fn lemma_rgb_set_finite_le(s: Seq<ColorContainer>)
    ensures
        rgb_set(s).finite(),
        rgb_set(s).len() <= s.len(),
    decreases s.len(),
{
    if s.len() > 0 {
        lemma_rgb_set_finite_le(s.drop_last());
    }
}

proof fn lemma_rgb_set_contains(s: Seq<ColorContainer>, rgb: (u8, u8, u8))
    ensures
        rgb_set(s).contains(rgb) <==> exists|i: int| 0 <= i < s.len() && cc_rgb(#[trigger] s[i])
            == rgb,
    decreases s.len(),
{
    if s.len() > 0 {
        lemma_rgb_set_contains(s.drop_last(), rgb);
        if rgb_set(s).contains(rgb) {
            if cc_rgb(s.last()) == rgb {
                assert(cc_rgb(s[s.len() - 1]) == rgb);
            } else {
                let i = choose|i: int|
                    0 <= i < s.drop_last().len() && cc_rgb(#[trigger] s.drop_last()[i]) == rgb;
                assert(cc_rgb(s[i]) == rgb);
            }
        }
        if exists|i: int| 0 <= i < s.len() && cc_rgb(#[trigger] s[i]) == rgb {
            let i = choose|i: int| 0 <= i < s.len() && cc_rgb(#[trigger] s[i]) == rgb;
            if i < s.len() - 1 {
                assert(cc_rgb(s.drop_last()[i]) == rgb);
            }
        }
    }
}

proof fn lemma_rgb_set_distinct_len(s: Seq<ColorContainer>)
    requires
        forall|i: int, j: int|
            0 <= i < j < s.len() ==> cc_rgb(#[trigger] s[i]) != cc_rgb(#[trigger] s[j]),
    ensures
        rgb_set(s).len() == s.len(),
    decreases s.len(),
{
    if s.len() > 0 {
        let pre = s.drop_last();
        assert(forall|i: int, j: int|
            0 <= i < j < pre.len() ==> cc_rgb(#[trigger] pre[i]) != cc_rgb(#[trigger] pre[j]))
            by {
            assert(forall|i: int| 0 <= i < pre.len() ==> pre[i] == #[trigger] s[i]);
        }
        lemma_rgb_set_distinct_len(pre);
        lemma_rgb_set_finite_le(pre);
        lemma_rgb_set_contains(pre, cc_rgb(s.last()));
        if rgb_set(pre).contains(cc_rgb(s.last())) {
            let i = choose|i: int| 0 <= i < pre.len() && cc_rgb(#[trigger] pre[i]) == cc_rgb(
                s.last(),
            );
            assert(cc_rgb(s[i]) == cc_rgb(s[s.len() - 1]));
            assert(false);
        }
    }
}

/// Some seed carries exactly this bucket's color.
pub open spec fn shares_rgb(seeds: Seq<ColorContainer>, c: ColorContainer) -> bool {
    exists|j: int| 0 <= j < seeds.len() && cc_rgb(#[trigger] seeds[j]) == cc_rgb(c)
}

/// More pairwise-distinct buckets than seeds cannot all coincide with a
/// seed's color.
proof fn lemma_rgb_pigeonhole(colors: Seq<ColorContainer>, seeds: Seq<ColorContainer>)
    requires
        forall|i: int, j: int|
            0 <= i < j < colors.len() ==> cc_rgb(#[trigger] colors[i]) != cc_rgb(
                #[trigger] colors[j],
            ),
        forall|i: int| 0 <= i < colors.len() ==> #[trigger] shares_rgb(seeds, colors[i]),
    ensures
        colors.len() <= seeds.len(),
{
    lemma_rgb_set_distinct_len(colors);
    lemma_rgb_set_finite_le(colors);
    lemma_rgb_set_finite_le(seeds);
    assert forall|rgb: (u8, u8, u8)| rgb_set(colors).contains(rgb) implies rgb_set(
        seeds,
    ).contains(rgb) by {
        lemma_rgb_set_contains(colors, rgb);
        let i = choose|i: int| 0 <= i < colors.len() && cc_rgb(#[trigger] colors[i]) == rgb;
        assert(shares_rgb(seeds, colors[i]));
        let j = choose|j: int|
            0 <= j < seeds.len() && cc_rgb(#[trigger] seeds[j]) == cc_rgb(colors[i]);
        lemma_rgb_set_contains(seeds, rgb);
    }
    vstd::set_lib::lemma_len_subset(rgb_set(colors), rgb_set(seeds));
}

/// K-means++ seeding. The first seed is chosen uniformly among the buckets;
/// each further seed is drawn with probability proportional to its squared
/// RGB distance to the nearest already-chosen seed, each unique color being
/// one sample regardless of its pixel count. When every weight is zero the
/// last bucket is taken, a deliberate fallback so that exactly `k` seeds
/// always come back; with pairwise-distinct buckets that round never
/// happens, and the seeds stay pairwise distinct.
pub fn kmeans_seeds(k: usize, colors: &Vec<ColorContainer>, sampler: &mut Sampler) -> (seeds: Vec<
    ColorContainer,
>)
    requires
        1 <= k <= colors@.len(),
        colors@.len() <= u32::MAX,
    ensures
        seeds@.len() == k,
        forall|i: int| 0 <= i < seeds@.len() ==> colors@.contains(#[trigger] seeds@[i]),
        (forall|i: int, j: int|
            0 <= i < j < colors@.len() ==> cc_rgb(#[trigger] colors@[i]) != cc_rgb(
                #[trigger] colors@[j],
            )) ==> (forall|i: int, j: int|
            0 <= i < j < seeds@.len() ==> cc_rgb(#[trigger] seeds@[i]) != cc_rgb(
                #[trigger] seeds@[j],
            )),
{
    let n: usize = colors.len();
    let selected_index: usize = sampler.below(n as u64) as usize;
    let mut centroid_seeds: Vec<ColorContainer> = Vec::new();
    centroid_seeds.push(colors[selected_index]);
    while centroid_seeds.len() < k
        invariant
            n == colors@.len(),
            1 <= k <= n <= u32::MAX,
            1 <= centroid_seeds@.len() <= k,
            forall|i: int|
                0 <= i < centroid_seeds@.len() ==> colors@.contains(#[trigger] centroid_seeds@[i]),
            (forall|i: int, j: int|
                0 <= i < j < colors@.len() ==> cc_rgb(#[trigger] colors@[i]) != cc_rgb(
                    #[trigger] colors@[j],
                )) ==> (forall|i: int, j: int|
                0 <= i < j < centroid_seeds@.len() ==> cc_rgb(#[trigger] centroid_seeds@[i])
                    != cc_rgb(#[trigger] centroid_seeds@[j])),
        decreases k - centroid_seeds@.len(),
    {
        let mut distances: Vec<u64> = Vec::new();
        let mut total: u64 = 0;
        let mut ci: usize = 0;
        proof {
            assert(distances@.take(0) =~= Seq::<u64>::empty());
        }
        while ci < n
            invariant
                n == colors@.len() <= u32::MAX,
                ci <= n,
                distances@.len() == ci,
                centroid_seeds@.len() >= 1,
                total == sum_u64(distances@),
                total <= 195075 * ci,
                forall|idx: int|
                    0 <= idx < ci ==> #[trigger] is_min_weight(
                        centroid_seeds@,
                        colors@[idx],
                        distances@[idx] as int,
                    ),
            decreases n - ci,
        {
            let c: ColorContainer = colors[ci];
            let mut min_distance: u64 = 0;
            let mut l: usize = 0;
            while l < centroid_seeds.len()
                invariant
                    l <= centroid_seeds@.len(),
                    centroid_seeds@.len() >= 1,
                    min_distance <= 195075,
                    l >= 1 ==> is_min_weight(
                        centroid_seeds@.take(l as int),
                        c,
                        min_distance as int,
                    ),
                decreases centroid_seeds@.len() - l,
            {
                let d: u64 = distance(&centroid_seeds[l], &c) as u64;
                let ghost old_min = min_distance;
                if l == 0 || d < min_distance {
                    min_distance = d;
                }
                proof {
                    let prev = centroid_seeds@.take(l as int);
                    let next = centroid_seeds@.take(l + 1);
                    assert(next =~= prev.push(centroid_seeds@[l as int]));
                    assert(d == dist_spec(next[l as int], c));
                    assert(forall|j: int| 0 <= j < l ==> next[j] == #[trigger] prev[j]);
                    if l == 0 || d < old_min {
                        assert(min_distance == dist_spec(next[l as int], c));
                    } else {
                        let w = choose|j: int|
                            0 <= j < prev.len() && old_min == dist_spec(#[trigger] prev[j], c);
                        assert(min_distance == dist_spec(next[w], c));
                    }
                    assert(is_min_weight(next, c, min_distance as int));
                }
                l = l + 1;
            }
            proof {
                assert(centroid_seeds@.take(centroid_seeds@.len() as int) =~= centroid_seeds@);
                assert(distances@.push(min_distance).drop_last() =~= distances@);
                assert(forall|idx: int|
                    0 <= idx < ci ==> distances@.push(min_distance)[idx] == #[trigger] distances@[idx]);
                assert(195075 * ci + 195075 == 195075 * (ci + 1));
            }
            distances.push(min_distance);
            total = total + min_distance;
            ci = ci + 1;
        }
        if total == 0 {
            proof {
                // a zero total means every bucket already coincides with a
                // seed, which pairwise-distinct buckets cannot: there are
                // fewer seeds than buckets
                if forall|i: int, j: int|
                    0 <= i < j < colors@.len() ==> cc_rgb(#[trigger] colors@[i]) != cc_rgb(
                        #[trigger] colors@[j],
                    ) {
                    assert forall|idx: int| 0 <= idx < n implies #[trigger] shares_rgb(
                        centroid_seeds@,
                        colors@[idx],
                    ) by {
                        lemma_sum_u64_take_succ(distances@, idx);
                        lemma_sum_u64_take_le(distances@, idx);
                        lemma_sum_u64_take_le(distances@, idx + 1);
                        assert(distances@[idx] == 0);
                        assert(is_min_weight(centroid_seeds@, colors@[idx], 0));
                        let j = choose|j: int|
                            0 <= j < centroid_seeds@.len() && 0 == dist_spec(
                                #[trigger] centroid_seeds@[j],
                                colors@[idx],
                            );
                        lemma_dist_bounds(centroid_seeds@[j], colors@[idx]);
                        assert(cc_rgb(centroid_seeds@[j]) == cc_rgb(colors@[idx]));
                        assert(shares_rgb(centroid_seeds@, colors@[idx]));
                    }
                    lemma_rgb_pigeonhole(colors@, centroid_seeds@);
                    assert(false);
                }
            }
            // no bucket carries any weight this round: take the last one
            centroid_seeds.push(colors[n - 1]);
        } else {
            let prob_point: u64 = sampler.below(total);
            let mut idx: usize = 0;
            let mut cumulative_sum: u64 = 0;
            proof {
                assert(distances@.take(0) =~= Seq::<u64>::empty());
                assert(distances@.take(n as int) =~= distances@);
            }
            // walk the buckets until the running weight sum exceeds the draw
            while idx < n
                invariant_except_break
                    n == distances@.len(),
                    idx < n,
                    cumulative_sum == sum_u64(distances@.take(idx as int)),
                    cumulative_sum <= prob_point,
                    prob_point < sum_u64(distances@),
                    sum_u64(distances@) <= u64::MAX,
                ensures
                    idx < n == distances@.len(),
                    sum_u64(distances@.take(idx as int)) <= prob_point,
                    prob_point < sum_u64(distances@.take(idx + 1)),
                decreases n - idx,
            {
                proof {
                    lemma_sum_u64_take_succ(distances@, idx as int);
                    lemma_sum_u64_take_le(distances@, idx + 1);
                }
                cumulative_sum = cumulative_sum + distances[idx];
                if prob_point < cumulative_sum {
                    break ;
                }
                proof {
                    if idx + 1 == n {
                        assert(distances@.take(n as int) =~= distances@);
                    }
                }
                idx = idx + 1;
            }
            proof {
                // the walk only crosses the draw on a positive weight, so
                // the selected bucket differs from every seed
                lemma_sum_u64_take_succ(distances@, idx as int);
                assert(distances@[idx as int] > 0);
                assert(is_min_weight(centroid_seeds@, colors@[idx as int], distances@[idx as int] as int));
                assert forall|j: int| 0 <= j < centroid_seeds@.len() implies cc_rgb(
                    #[trigger] centroid_seeds@[j],
                ) != cc_rgb(colors@[idx as int]) by {
                    assert(dist_spec(centroid_seeds@[j], colors@[idx as int]) >= distances@[idx as int]);
                    lemma_dist_bounds(centroid_seeds@[j], colors@[idx as int]);
                }
            }
            let ghost seeds_before = centroid_seeds@;
            centroid_seeds.push(colors[idx]);
            proof {
                assert(forall|i: int|
                    0 <= i < seeds_before.len() ==> centroid_seeds@[i] == #[trigger] seeds_before[i]);
            }
        }
    }
    centroid_seeds
}

/// A partition pass assigns each point one index: the nearest centroid with
/// the earliest-index tie-break is unique.
pub proof fn lemma_closest_unique(
    centroids: Seq<ColorContainer>,
    p: ColorContainer,
    i1: int,
    i2: int,
)
    requires
        is_closest(centroids, p, i1),
        is_closest(centroids, p, i2),
    ensures
        i1 == i2,
{
    if i1 < i2 {
        assert(dist_spec(centroids[i1], p) > dist_spec(centroids[i2], p));
        assert(dist_spec(centroids[i1], p) <= dist_spec(centroids[i2], p));
    } else if i2 < i1 {
        assert(dist_spec(centroids[i2], p) > dist_spec(centroids[i1], p));
        assert(dist_spec(centroids[i2], p) <= dist_spec(centroids[i1], p));
    }
}

/// Feeding a converged centroid set back in as buckets, one bucket per
/// centroid, yields zero reassignments in one additional partition pass:
/// every bucket's nearest centroid is itself, as long as the centroids
/// carry pairwise distinct colors.
pub proof fn lemma_converged_fixed_point(centroids: Seq<ColorContainer>, i: int)
    requires
        0 <= i < centroids.len(),
        forall|a: int, b: int|
            0 <= a < b < centroids.len() ==> cc_rgb(#[trigger] centroids[a]) != cc_rgb(
                #[trigger] centroids[b],
            ),
    ensures
        is_closest(centroids, centroids[i], i),
{
    lemma_dist_bounds(centroids[i], centroids[i]);
    assert forall|j: int| 0 <= j < centroids.len() && j != i implies dist_spec(
        centroids[j],
        centroids[i],
    ) > 0 by {
        lemma_dist_bounds(centroids[j], centroids[i]);
        if j < i {
            assert(cc_rgb(centroids[j]) != cc_rgb(centroids[i]));
        } else {
            assert(cc_rgb(centroids[i]) != cc_rgb(centroids[j]));
        }
    }
}

/// Recomputing a singleton group reproduces its only member in either
/// aggregation mode; together with the zero-reassignment property above, a
/// converged set of distinct centroids is a true fixed point of one further
/// pass.
pub proof fn lemma_singleton_centroid(c: ColorContainer, is_mean: bool)
    ensures
        centroid_spec(seq![c], is_mean) == c,
{
    let s = seq![c];
    let empty = Seq::<ColorContainer>::empty();
    assert(s.drop_last() =~= empty);
    assert(s.last() == c);
    assert(sum_of(empty, red_of()) == 0);
    assert(sum_of(empty, green_of()) == 0);
    assert(sum_of(empty, blue_of()) == 0);
    assert(sum_of(empty, count_of()) == 0);
    assert(sum_of(s, red_of()) == c.r);
    assert(sum_of(s, green_of()) == c.g);
    assert(sum_of(s, blue_of()) == c.b);
    assert(sum_counts(s) == c.count);
    let eu = Seq::<u8>::empty();
    assert(sort_asc(eu) == eu);
    assert(insert_sorted_u8(eu, c.r) =~= seq![c.r]);
    assert(insert_sorted_u8(eu, c.g) =~= seq![c.g]);
    assert(insert_sorted_u8(eu, c.b) =~= seq![c.b]);
    assert(s.map_values(red8_of()) =~= seq![c.r]);
    assert(s.map_values(green8_of()) =~= seq![c.g]);
    assert(s.map_values(blue8_of()) =~= seq![c.b]);
    assert(seq![c.r].drop_last() =~= eu);
    assert(seq![c.g].drop_last() =~= eu);
    assert(seq![c.b].drop_last() =~= eu);
    assert(sort_asc(seq![c.r]) =~= seq![c.r]);
    assert(sort_asc(seq![c.g]) =~= seq![c.g]);
    assert(sort_asc(seq![c.b]) =~= seq![c.b]);
    assert(median_channel(seq![c.r]) == c.r);
    assert(median_channel(seq![c.g]) == c.g);
    assert(median_channel(seq![c.b]) == c.b);
}

/// Total pixel count over all groups of a partition.
pub open spec fn sum_groups(b: Seq<Vec<ColorContainer>>) -> int
    decreases b.len(),
{
    if b.len() == 0 {
        0
    } else {
        sum_groups(b.drop_last()) + sum_counts(b.last()@)
    }
}

/// Total number of buckets over all groups of a partition.
pub open spec fn len_groups(b: Seq<Vec<ColorContainer>>) -> int
    decreases b.len(),
{
    if b.len() == 0 {
        0
    } else {
        len_groups(b.drop_last()) + b.last()@.len()
    }
}

proof fn lemma_sum_of_lower(s: Seq<ColorContainer>, f: spec_fn(ColorContainer) -> int, lo: int)
    requires
        forall|i: int| 0 <= i < s.len() ==> #[trigger] f(s[i]) >= lo,
        lo >= 0,
    ensures
        sum_of(s, f) >= s.len() * lo,
    decreases s.len(),
{
    if s.len() == 0 {
    } else {
        assert(forall|i: int|
            0 <= i < s.drop_last().len() ==> #[trigger] f(s.drop_last()[i]) >= lo);
        lemma_sum_of_lower(s.drop_last(), f, lo);
        assert((s.len() - 1) * lo + lo == s.len() * lo) by (nonlinear_arith);
    }
}

proof fn lemma_sum_counts_nonneg(s: Seq<ColorContainer>)
    ensures
        sum_counts(s) >= 0,
{
    lemma_sum_of_bounds(s, count_of(), u32::MAX as int);
}

proof fn lemma_groups_take_succ(b: Seq<Vec<ColorContainer>>, i: int)
    requires
        0 <= i < b.len(),
    ensures
        sum_groups(b.take(i + 1)) == sum_groups(b.take(i)) + sum_counts(b[i]@),
        len_groups(b.take(i + 1)) == len_groups(b.take(i)) + b[i]@.len(),
{
    assert(b.take(i + 1).drop_last() =~= b.take(i));
    assert(b.take(i + 1).last() == b[i]);
}

proof fn lemma_groups_take_full(b: Seq<Vec<ColorContainer>>)
    ensures
        sum_groups(b.take(b.len() as int)) == sum_groups(b),
        len_groups(b.take(b.len() as int)) == len_groups(b),
{
    assert(b.take(b.len() as int) =~= b);
}

/// Every single group is bounded by the partition's totals.
proof fn lemma_group_bounds(b: Seq<Vec<ColorContainer>>, i: int)
    requires
        0 <= i < b.len(),
    ensures
        sum_counts(b[i]@) <= sum_groups(b),
        b[i]@.len() <= len_groups(b),
        sum_groups(b) >= 0,
        len_groups(b) >= 0,
    decreases b.len(),
{
    lemma_sum_counts_nonneg(b.last()@);
    if b.len() == 1 {
        assert(sum_groups(b.drop_last()) == 0);
        assert(len_groups(b.drop_last()) == 0);
    } else if i == b.len() - 1 {
        lemma_group_bounds(b.drop_last(), 0);
    } else {
        lemma_group_bounds(b.drop_last(), i);
    }
}

/// Pushing one bucket into one group raises the totals by exactly that
/// bucket.
proof fn lemma_groups_update(
    b: Seq<Vec<ColorContainer>>,
    b2: Seq<Vec<ColorContainer>>,
    i: int,
    x: ColorContainer,
)
    requires
        b2.len() == b.len(),
        0 <= i < b.len(),
        b2[i]@ == b[i]@.push(x),
        forall|j: int| 0 <= j < b.len() && j != i ==> b2[j] == b[j],
    ensures
        sum_groups(b2) == sum_groups(b) + x.count,
        len_groups(b2) == len_groups(b) + 1,
    decreases b.len(),
{
    lemma_sum_of_push(b[i]@, x, count_of());
    if i == b.len() - 1 {
        assert(b2.drop_last() =~= b.drop_last());
    } else {
        assert(b2.last() == b.last());
        lemma_groups_update(b.drop_last(), b2.drop_last(), i, x);
    }
}

/// Appending a group extends the totals by the group's own.
proof fn lemma_groups_push(b: Seq<Vec<ColorContainer>>, g: Vec<ColorContainer>)
    ensures
        sum_groups(b.push(g)) == sum_groups(b) + sum_counts(g@),
        len_groups(b.push(g)) == len_groups(b) + g@.len(),
{
    assert(b.push(g).drop_last() =~= b);
    assert(b.push(g).last() == g);
}

/// The buckets a partition holds, over all its groups, as a multiset.
pub open spec fn groups_multiset(b: Seq<Vec<ColorContainer>>) -> Multiset<ColorContainer>
    decreases b.len(),
{
    if b.len() == 0 {
        Multiset::empty()
    } else {
        groups_multiset(b.drop_last()).add(b.last()@.to_multiset())
    }
}

proof fn lemma_groups_multiset_push(b: Seq<Vec<ColorContainer>>, g: Vec<ColorContainer>)
    ensures
        groups_multiset(b.push(g)) == groups_multiset(b).add(g@.to_multiset()),
{
    assert(b.push(g).drop_last() =~= b);
    assert(b.push(g).last() == g);
}

proof fn lemma_groups_multiset_take_succ(b: Seq<Vec<ColorContainer>>, i: int)
    requires
        0 <= i < b.len(),
    ensures
        groups_multiset(b.take(i + 1)) == groups_multiset(b.take(i)).add(b[i]@.to_multiset()),
{
    assert(b.take(i + 1).drop_last() =~= b.take(i));
    assert(b.take(i + 1).last() == b[i]);
}

proof fn lemma_groups_multiset_take_full(b: Seq<Vec<ColorContainer>>)
    ensures
        groups_multiset(b.take(b.len() as int)) == groups_multiset(b),
{
    assert(b.take(b.len() as int) =~= b);
}

/// Pushing one bucket into one group inserts it into the partition's
/// multiset.
proof fn lemma_groups_multiset_update(
    b: Seq<Vec<ColorContainer>>,
    b2: Seq<Vec<ColorContainer>>,
    i: int,
    x: ColorContainer,
)
    requires
        b2.len() == b.len(),
        0 <= i < b.len(),
        b2[i]@ == b[i]@.push(x),
        forall|j: int| 0 <= j < b.len() && j != i ==> b2[j] == b[j],
    ensures
        groups_multiset(b2) == groups_multiset(b).insert(x),
    decreases b.len(),
{
    broadcast use vstd::seq_lib::group_to_multiset_ensures;
    broadcast use vstd::multiset::group_multiset_axioms;

    if i == b.len() - 1 {
        assert(b2.drop_last() =~= b.drop_last());
        assert(b2.last()@.to_multiset() =~= b.last()@.to_multiset().insert(x));
        assert(groups_multiset(b2) =~= groups_multiset(b).insert(x));
    } else {
        assert(b2.last() == b.last());
        assert(b2.drop_last()[i]@ == b.drop_last()[i]@.push(x));
        lemma_groups_multiset_update(b.drop_last(), b2.drop_last(), i, x);
        assert(groups_multiset(b2) =~= groups_multiset(b).insert(x));
    }
}

/// The centroids one recomputation pass yields, group by group.
pub open spec fn recompute_spec(groups: Seq<Vec<ColorContainer>>, is_mean: bool) -> Seq<
    ColorContainer,
> {
    Seq::new(groups.len(), |i: int| centroid_spec(groups[i]@, is_mean))
}

/// Centroids carry exactly their groups' pixel counts, so recomputing them
/// preserves the partition's total.
proof fn lemma_centroid_counts(b: Seq<Vec<ColorContainer>>, cs: Seq<ColorContainer>, is_mean: bool)
    requires
        cs.len() == b.len(),
        forall|i: int| 0 <= i < b.len() ==> cs[i] == centroid_spec(#[trigger] b[i]@, is_mean),
        forall|i: int| 0 <= i < b.len() ==> 0 <= sum_counts(#[trigger] b[i]@) <= u32::MAX,
    ensures
        sum_counts(cs) == sum_groups(b),
    decreases b.len(),
{
    if b.len() > 0 {
        lemma_centroid_counts(b.drop_last(), cs.drop_last(), is_mean);
        assert(cs.last() == centroid_spec(b.last()@, is_mean));
        assert(sum_counts(cs) == sum_counts(cs.drop_last()) + cs.last().count);
        if b.last()@.len() == 0 {
            assert(sum_counts(b.last()@) == 0);
        }
    }
}

/// Moves one bucket into the group at `i`, leaving every other group as it
/// was.
fn push_to_group(groups: &mut Vec<Vec<ColorContainer>>, i: usize, x: ColorContainer)
    requires
        i < old(groups)@.len(),
    ensures
        final(groups)@.len() == old(groups)@.len(),
        final(groups)@[i as int]@ == old(groups)@[i as int]@.push(x),
        forall|j: int|
            0 <= j < old(groups)@.len() && j != i ==> final(groups)@[j] == old(groups)@[j],
{
    let ghost before = groups@;
    let mut inner: Vec<ColorContainer> = groups.remove(i);
    inner.push(x);
    groups.insert(i, inner);
    proof {
        assert forall|j: int|
            0 <= j < before.len() && j != i implies groups@[j] == before[j] by {
            if j < i as int {
            } else {
                assert(groups@[j] == before.remove(i as int)[j - 1]);
            }
        }
    }
}

/// Extracts the dominant colors of a raster: builds the histogram of its
/// opaque pixels, seeds `k` centroids, refines them by Lloyd's iteration
/// under squared RGB distance until an iteration cap, and returns them
/// ordered by descending aggregate pixel count.
///
/// The empty-palette and insufficient-colors conditions are reported before
/// any clustering work; the non-convergence condition is reported instead
/// of a partial result when the cap is reached while buckets were still
/// being reassigned.
pub fn kmeans(config: &Configuration, image: Raster, sampler: &mut Sampler) -> (res: Result<
    Vec<ColorContainer>,
    ColorMapError,
>)
    requires
        config.k >= 1,
        image.pixels@.len() <= u32::MAX,
    ensures
        colors_of(image.pixels@).len() == 0 <==> res == Err::<
            Vec<ColorContainer>,
            ColorMapError,
        >(ColorMapError::EmptyPalette),
        (0 < colors_of(image.pixels@).len() < config.k) <==> (res matches Err(e)
            && e matches ColorMapError::InsufficientColors { .. }),
        res matches Err(ColorMapError::InsufficientColors { k: kk, found }) ==> kk == config.k
            && found == colors_of(image.pixels@).len(),
        res matches Err(ColorMapError::MaxIterations(m)) ==> m == MAX_ITERATIONS && colors_of(
            image.pixels@,
        ).len() >= config.k,
        res matches Ok(list) ==> {
            &&& list@.len() == config.k
            &&& sorted_by_count_desc(list@)
            &&& sum_counts(list@) == opaque_count(image.pixels@)
            &&& colors_of(image.pixels@).len() >= config.k
        },
        // a single centroid can never be reassigned, so one cluster always
        // converges: success is owed whenever any opaque color exists
        config.k == 1 && colors_of(image.pixels@).len() >= 1 ==> res matches Ok(_),
        // an accepted result is the count-sorted list of per-group
        // aggregates of some converged k-way partition of the image's
        // histogram: every bucket's nearest returned centroid is its own
        // group, so no bucket would be reassigned by one more pass and no
        // best-so-far state is ever handed out; only which converged
        // partition the random seeding led to is left open
        res matches Ok(list) ==> exists|hist: Seq<ColorContainer>, groups: Seq<Vec<ColorContainer>>|
            #![trigger is_histogram(image.pixels@, hist), groups_multiset(groups)]
            {
                &&& is_histogram(image.pixels@, hist)
                &&& groups.len() == config.k
                &&& groups_multiset(groups) == hist.to_multiset()
                &&& list@ == sort_desc(recompute_spec(groups, config.is_mean))
                &&& forall|a: int, b: int|
                    0 <= a < groups.len() && 0 <= b < groups[a]@.len() ==> is_closest(
                        recompute_spec(groups, config.is_mean),
                        #[trigger] groups[a]@[b],
                        a,
                    )
            },
{
    let ghost pix = image.pixels@;
    let k: usize = config.k;
    let is_mean: bool = config.is_mean;

    let unique_colors: Vec<ColorContainer> = get_unique_colors(image);
    let ghost uniq = unique_colors@;

    if unique_colors.len() == 0 {
        return Err(ColorMapError::EmptyPalette);
    }
    if unique_colors.len() < k {
        return Err(
            ColorMapError::InsufficientColors { k, found: unique_colors.len() },
        );
    }
    let n: usize = unique_colors.len();
    proof {
        lemma_count_rgb_bounds(pix, (0u8, 0u8, 0u8));
        assert(forall|i: int| 0 <= i < uniq.len() ==> #[trigger] count_of()(uniq[i]) >= 1);
        lemma_sum_of_lower(uniq, count_of(), 1);
        assert(n <= sum_counts(uniq));
    }
    let ghost total_count = sum_counts(uniq);

    let mut centroids: Vec<ColorContainer> = kmeans_seeds(k, &unique_colors, sampler);

    let mut buffer: Vec<Vec<ColorContainer>> = Vec::new();
    proof {
        lemma_groups_push(buffer@, unique_colors);
        lemma_groups_multiset_push(buffer@, unique_colors);
        assert(sum_groups(Seq::<Vec<ColorContainer>>::empty()) == 0);
        assert(len_groups(Seq::<Vec<ColorContainer>>::empty()) == 0);
        assert(groups_multiset(Seq::<Vec<ColorContainer>>::empty()) == Multiset::<
            ColorContainer,
        >::empty());
    }
    buffer.push(unique_colors);
    proof {
        broadcast use vstd::multiset::group_multiset_axioms;

        assert(groups_multiset(buffer@) =~= uniq.to_multiset());
    }
    let mut gi: usize = 1;
    while gi < k
        invariant
            1 <= gi <= k,
            buffer@.len() == gi,
            sum_groups(buffer@) == total_count,
            len_groups(buffer@) == n,
            groups_multiset(buffer@) == uniq.to_multiset(),
        decreases k - gi,
    {
        let fresh_group: Vec<ColorContainer> = Vec::new();
        proof {
            broadcast use vstd::seq_lib::group_to_multiset_ensures;
            broadcast use vstd::multiset::group_multiset_axioms;

            lemma_groups_push(buffer@, fresh_group);
            lemma_groups_multiset_push(buffer@, fresh_group);
            assert(sum_counts(fresh_group@) == 0);
            assert(fresh_group@.to_multiset() =~= Multiset::<ColorContainer>::empty());
            assert(groups_multiset(buffer@).add(fresh_group@.to_multiset()) =~= groups_multiset(
                buffer@,
            ));
        }
        buffer.push(fresh_group);
        gi = gi + 1;
    }

    let mut iteration: i32 = 1;
    while iteration <= MAX_ITERATIONS
        invariant
            1 <= iteration <= MAX_ITERATIONS + 1,
            k == config.k >= 1,
            k <= n,
            pix == image.pixels@,
            n == colors_of(pix).len(),
            centroids@.len() == k,
            buffer@.len() == k,
            sum_groups(buffer@) == total_count,
            len_groups(buffer@) == n,
            0 <= total_count <= u32::MAX,
            n <= u32::MAX,
            is_mean == config.is_mean,
            groups_multiset(buffer@) == uniq.to_multiset(),
            iteration > 1 ==> sum_counts(centroids@) == total_count,
            iteration > 1 ==> centroids@ == recompute_spec(buffer@, is_mean),
            iteration == MAX_ITERATIONS + 1 ==> forall|a: int, b: int|
                0 <= a < k && 0 <= b < buffer@[a]@.len() ==> is_closest(
                    centroids@,
                    #[trigger] buffer@[a]@[b],
                    a,
                ),
        decreases MAX_ITERATIONS + 1 - iteration,
    {
        let ghost prev_buffer = buffer@;
        let ghost prev_centroids = centroids@;
        let mut change: bool = false;
        let mut temp_buffer: Vec<Vec<ColorContainer>> = Vec::new();
        let mut ti: usize = 0;
        while ti < k
            invariant
                ti <= k,
                temp_buffer@.len() == ti,
                sum_groups(temp_buffer@) == 0,
                len_groups(temp_buffer@) == 0,
                groups_multiset(temp_buffer@) == Multiset::<ColorContainer>::empty(),
                forall|a: int| 0 <= a < ti ==> (#[trigger] temp_buffer@[a]@) == Seq::<
                    ColorContainer,
                >::empty(),
            decreases k - ti,
        {
            let fresh_group: Vec<ColorContainer> = Vec::new();
            proof {
                broadcast use vstd::seq_lib::group_to_multiset_ensures;
                broadcast use vstd::multiset::group_multiset_axioms;

                lemma_groups_push(temp_buffer@, fresh_group);
                lemma_groups_multiset_push(temp_buffer@, fresh_group);
                assert(fresh_group@ =~= Seq::<ColorContainer>::empty());
                assert(fresh_group@.to_multiset() =~= Multiset::<ColorContainer>::empty());
                assert(groups_multiset(temp_buffer@).add(fresh_group@.to_multiset())
                    =~= groups_multiset(temp_buffer@));
            }
            temp_buffer.push(fresh_group);
            ti = ti + 1;
        }
        let mut i: usize = 0;
        proof {
            assert(buffer@.take(0) =~= Seq::<Vec<ColorContainer>>::empty());
        }
        while i < k
            invariant
                i <= k,
                k >= 1,
                centroids@.len() == k,
                buffer@.len() == k,
                temp_buffer@.len() == k,
                sum_groups(buffer@) == total_count,
                len_groups(buffer@) == n,
                0 <= total_count <= u32::MAX,
                n <= u32::MAX,
                sum_groups(temp_buffer@) == sum_groups(buffer@.take(i as int)),
                len_groups(temp_buffer@) == len_groups(buffer@.take(i as int)),
                groups_multiset(temp_buffer@) == groups_multiset(buffer@.take(i as int)),
                k == 1 ==> !change,
                !change ==> forall|a: int, b: int|
                    0 <= a < i && 0 <= b < buffer@[a]@.len() ==> is_closest(
                        centroids@,
                        #[trigger] buffer@[a]@[b],
                        a,
                    ),
                !change ==> forall|a: int|
                    0 <= a < k ==> (#[trigger] temp_buffer@[a]@) == (if a < i {
                        buffer@[a]@
                    } else {
                        Seq::<ColorContainer>::empty()
                    }),
            decreases k - i,
        {
            let group_len: usize = buffer[i].len();
            let mut e: usize = 0;
            proof {
                broadcast use vstd::seq_lib::group_to_multiset_ensures;
                broadcast use vstd::multiset::group_multiset_axioms;

                assert(buffer@[i as int]@.take(0) =~= Seq::<ColorContainer>::empty());
                assert(buffer@[i as int]@.take(0).to_multiset() =~= Multiset::<
                    ColorContainer,
                >::empty());
                assert(groups_multiset(temp_buffer@).add(
                    buffer@[i as int]@.take(0).to_multiset(),
                ) =~= groups_multiset(temp_buffer@));
            }
            while e < group_len
                invariant
                    e <= group_len,
                    i < k,
                    k >= 1,
                    centroids@.len() == k,
                    buffer@.len() == k,
                    temp_buffer@.len() == k,
                    group_len == buffer@[i as int]@.len(),
                    sum_groups(buffer@) == total_count,
                    len_groups(buffer@) == n,
                    0 <= total_count <= u32::MAX,
                    n <= u32::MAX,
                    sum_groups(temp_buffer@) == sum_groups(buffer@.take(i as int)) + sum_counts(
                        buffer@[i as int]@.take(e as int),
                    ),
                    len_groups(temp_buffer@) == len_groups(buffer@.take(i as int))
                        + buffer@[i as int]@.take(e as int).len(),
                    groups_multiset(temp_buffer@) == groups_multiset(buffer@.take(i as int)).add(
                        buffer@[i as int]@.take(e as int).to_multiset(),
                    ),
                    k == 1 ==> !change,
                    !change ==> forall|a: int, b: int|
                        0 <= a < i && 0 <= b < buffer@[a]@.len() ==> is_closest(
                            centroids@,
                            #[trigger] buffer@[a]@[b],
                            a,
                        ),
                    !change ==> forall|b: int|
                        0 <= b < e ==> is_closest(
                            centroids@,
                            #[trigger] buffer@[i as int]@[b],
                            i as int,
                        ),
                    !change ==> forall|a: int|
                        0 <= a < k ==> (#[trigger] temp_buffer@[a]@) == (if a < i {
                            buffer@[a]@
                        } else if a == i {
                            buffer@[i as int]@.take(e as int)
                        } else {
                            Seq::<ColorContainer>::empty()
                        }),
                decreases group_len - e,
            {
                let group = &buffer[i];
                let cc: ColorContainer = group[e];
                let closest: usize = closest_centroid(&cc, &centroids);
                let ghost temp_before = temp_buffer@;
                push_to_group(&mut temp_buffer, closest, cc);
                if closest != i {
                    change = true;
                }
                proof {
                    broadcast use vstd::seq_lib::group_to_multiset_ensures;
                    broadcast use vstd::multiset::group_multiset_axioms;

                    lemma_groups_update(temp_before, temp_buffer@, closest as int, cc);
                    lemma_groups_multiset_update(temp_before, temp_buffer@, closest as int, cc);
                    lemma_sum_of_take_succ(buffer@[i as int]@, count_of(), e as int);
                    assert(buffer@[i as int]@.take(e + 1) =~= buffer@[i as int]@.take(
                        e as int,
                    ).push(cc));
                    assert(groups_multiset(temp_buffer@) =~= groups_multiset(
                        buffer@.take(i as int),
                    ).add(buffer@[i as int]@.take(e + 1).to_multiset()));
                    if k == 1 {
                        assert(closest == 0 && i == 0);
                    }
                    if !change {
                        assert(closest == i);
                        assert(is_closest(centroids@, buffer@[i as int]@[e as int], i as int));
                        assert forall|a: int| 0 <= a < k implies (#[trigger] temp_buffer@[a]@) == (
                        if a < i {
                            buffer@[a]@
                        } else if a == i {
                            buffer@[i as int]@.take(e + 1)
                        } else {
                            Seq::<ColorContainer>::empty()
                        }) by {
                            if a == i {
                                assert(temp_buffer@[a]@ == temp_before[a]@.push(cc));
                            } else {
                                assert(temp_buffer@[a] == temp_before[a]);
                            }
                        }
                    }
                }
                e = e + 1;
            }
            proof {
                lemma_groups_take_succ(buffer@, i as int);
                lemma_groups_multiset_take_succ(buffer@, i as int);
                assert(buffer@[i as int]@.take(group_len as int) =~= buffer@[i as int]@);
                if !change {
                    assert forall|a: int, b: int|
                        0 <= a < i + 1 && 0 <= b < buffer@[a]@.len() implies is_closest(
                        centroids@,
                        #[trigger] buffer@[a]@[b],
                        a,
                    ) by {
                        if a == i as int {
                            assert(is_closest(centroids@, buffer@[i as int]@[b], i as int));
                        }
                    }
                    assert forall|a: int| 0 <= a < k implies (#[trigger] temp_buffer@[a]@) == (
                    if a < i + 1 {
                        buffer@[a]@
                    } else {
                        Seq::<ColorContainer>::empty()
                    }) by {
                        if a == i as int {
                            assert(temp_buffer@[a]@ == buffer@[i as int]@.take(group_len as int));
                        }
                    }
                }
            }
            i = i + 1;
        }
        proof {
            lemma_groups_take_full(buffer@);
            lemma_groups_multiset_take_full(buffer@);
        }

        if change && iteration == MAX_ITERATIONS {
            return Err(ColorMapError::MaxIterations(MAX_ITERATIONS));
        }

        buffer = temp_buffer;
        proof {
            assert forall|j: int| 0 <= j < buffer@.len() implies sum_counts(#[trigger] buffer@[j]@)
                <= u32::MAX && buffer@[j]@.len() <= u32::MAX by {
                lemma_group_bounds(buffer@, j);
                lemma_sum_counts_nonneg(buffer@[j]@);
            }
        }
        centroids = calculate_centroids(&buffer, is_mean);
        proof {
            assert forall|j: int| 0 <= j < buffer@.len() implies 0 <= sum_counts(
                #[trigger] buffer@[j]@,
            ) <= u32::MAX by {
                lemma_group_bounds(buffer@, j);
                lemma_sum_counts_nonneg(buffer@[j]@);
            }
            lemma_centroid_counts(buffer@, centroids@, is_mean);
            assert(centroids@ =~= recompute_spec(buffer@, is_mean));
            if iteration == MAX_ITERATIONS {
                // the last permitted pass reassigned nothing, so the
                // regrouped buffer carries the very same groups and the
                // recomputed centroids are the ones the pass tested
                // against: the returned state is converged
                assert(!change);
                assert(forall|a: int| 0 <= a < k ==> #[trigger] buffer@[a]@ == prev_buffer[a]@);
                assert(recompute_spec(buffer@, is_mean) =~= recompute_spec(prev_buffer, is_mean));
                assert(prev_centroids == recompute_spec(prev_buffer, is_mean));
                assert(centroids@ =~= prev_centroids);
                assert forall|a: int, b: int|
                    0 <= a < k && 0 <= b < buffer@[a]@.len() implies is_closest(
                    centroids@,
                    #[trigger] buffer@[a]@[b],
                    a,
                ) by {
                    assert(buffer@[a]@[b] == prev_buffer[a]@[b]);
                    assert(is_closest(prev_centroids, prev_buffer[a]@[b], a));
                }
            }
        }
        iteration = iteration + 1;
    }
    proof {
        lemma_sort_desc_ensures(centroids@);
        assert(centroids@ == recompute_spec(buffer@, is_mean));
        assert(is_histogram(image.pixels@, uniq));
        assert(groups_multiset(buffer@) == uniq.to_multiset());
        assert forall|a: int, b: int|
            0 <= a < buffer@.len() && 0 <= b < buffer@[a]@.len() implies is_closest(
            recompute_spec(buffer@, config.is_mean),
            #[trigger] buffer@[a]@[b],
            a,
        ) by {
            assert(is_closest(centroids@, buffer@[a]@[b], a));
        }
    }
    let sorted: Vec<ColorContainer> = sort_by_count_desc(&centroids);
    proof {
        assert(sorted@ == sort_desc(recompute_spec(buffer@, config.is_mean)));
    }
    Ok(sorted)
}

} // verus!
