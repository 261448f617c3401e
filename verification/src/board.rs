use vstd::prelude::*;
use vstd::arithmetic::div_mod::{
    lemma_div_is_ordered, lemma_div_multiples_vanish, lemma_div_pos_is_pos,
};
use vstd::arithmetic::mul::lemma_mul_inequality;
use vstd::multiset::Multiset;
use crate::files::{fof_name, fof_size, FileMetadata, FileOrFolder, Folder};

verus! {

/// One axis-aligned rectangle of the terminal grid, in cell coordinates.
#[derive(Clone, Copy, PartialEq, Eq, Structural, Debug)]
pub struct Rect {
    pub x: u16,
    pub y: u16,
    pub width: u16,
    pub height: u16,
}

/// The ghost image of one layout input: a name and a size.
#[verifier::ext_equal]
pub ghost struct ItemView {
    pub name: Seq<u8>,
    pub size: u64,
}

/// The ghost image of one laid-out tile.
#[verifier::ext_equal]
pub ghost struct TileView {
    pub x: int,
    pub y: int,
    pub width: int,
    pub height: int,
    pub name: Seq<u8>,
    pub size: u64,
}

impl View for FileMetadata {
    type V = ItemView;

    open spec fn view(&self) -> ItemView {
        ItemView { name: self.name@, size: self.size }
    }
}

/// One rectangle of the current layout, carrying the entry it stands for.
pub struct Tile {
    pub rect: Rect,
    pub file_metadata: FileMetadata,
}

impl View for Tile {
    type V = TileView;

    open spec fn view(&self) -> TileView {
        TileView {
            x: self.rect.x as int,
            y: self.rect.y as int,
            width: self.rect.width as int,
            height: self.rect.height as int,
            name: self.file_metadata.name@,
            size: self.file_metadata.size,
        }
    }
}

pub open spec fn items_view(s: Seq<FileMetadata>) -> Seq<ItemView> {
    Seq::new(s.len(), |i: int| s[i]@)
}

pub open spec fn tiles_view(s: Seq<Tile>) -> Seq<TileView> {
    Seq::new(s.len(), |i: int| s[i]@)
}

/// The weight an item takes in the layout: its size, except that an empty
/// entry keeps weight one so it is never squeezed out of existence entirely.
pub open spec fn weight(it: ItemView) -> int {
    if it.size == 0 {
        1
    } else {
        it.size as int
    }
}

pub open spec fn sum_weights(s: Seq<ItemView>) -> int
    decreases s.len(),
{
    if s.len() == 0 {
        0
    } else {
        weight(s[0]) + sum_weights(s.skip(1))
    }
}

pub proof fn lemma_sum_weights_bounds(s: Seq<ItemView>)
    ensures
        s.len() <= sum_weights(s),
        sum_weights(s) <= s.len() * 0x1_0000_0000_0000_0000,
        s.len() > 0 ==> weight(s[0]) <= sum_weights(s),
    decreases s.len(),
{
    if s.len() > 0 {
        lemma_sum_weights_bounds(s.skip(1));
    }
}

pub proof fn lemma_sum_weights_split(s: Seq<ItemView>, k: int)
    requires
        0 <= k <= s.len(),
    ensures
        sum_weights(s) == sum_weights(s.take(k)) + sum_weights(s.skip(k)),
    decreases k,
{
    if k == 0 {
        assert(s.take(0) =~= Seq::<ItemView>::empty());
        assert(s.skip(0) =~= s);
    } else {
        assert(s.take(k)[0] == s[0]);
        assert(s.take(k).skip(1) =~= s.skip(1).take(k - 1));
        assert(s.skip(k) =~= s.skip(1).skip(k - 1));
        lemma_sum_weights_split(s.skip(1), k - 1);
    }
}

/// Floor division loses at most the remainder: a scaled share never exceeds
/// the whole.
pub proof fn lemma_mul_div_le(a: int, b: int, c: int)
    requires
        0 <= a,
        0 <= b <= c,
        0 < c,
    ensures
        0 <= a * b / c <= a,
{
    lemma_div_pos_is_pos(a * b, c);
    lemma_mul_inequality(b, c, a);
    assert(b * a <= c * a);
    assert(a * b <= a * c) by (nonlinear_arith)
        requires b * a <= c * a,
    ;
    lemma_div_is_ordered(a * b, a * c, c);
    lemma_div_multiples_vanish(a, c);
    assert(c * a == a * c) by (nonlinear_arith);
}

/// Area proportionality of a split, up to rounding: a strip whose
/// thickness is the rounded-down share `long * share / total` of the long
/// side covers an area within one line of cells (`short`) of the exact
/// proportional share `long * short * share / total` of the rectangle.
pub proof fn lemma_share_rounding(long: int, short: int, share: int, total: int)
    requires
        0 <= long,
        0 < short,
        0 < share <= total,
    ensures
        ({
            let strip_area = (long * share / total) * short;
            total * strip_area <= long * share * short < total * strip_area + total * short
        }),
{
    let t = long * share / total;
    vstd::arithmetic::div_mod::lemma_fundamental_div_mod(long * share, total);
    vstd::arithmetic::div_mod::lemma_mod_bound(long * share, total);
    let rem = (long * share) % total;
    assert(long * share == total * t + rem);
    assert((total * t + rem) * short == total * (t * short) + rem * short) by (nonlinear_arith);
    assert(long * share * short == (total * t + rem) * short) by (nonlinear_arith)
        requires
            long * share == total * t + rem,
    ;
    assert(0 <= rem * short) by (nonlinear_arith)
        requires
            0 <= rem,
            0 < short,
    ;
    assert(rem * short < total * short) by (nonlinear_arith)
        requires
            rem < total,
            0 < short,
    ;
}

/// Two tiles overlap only if they overlap strictly on both axes.
pub open spec fn tiles_disjoint(a: TileView, b: TileView) -> bool {
    !(a.x < b.x + b.width && b.x < a.x + a.width && a.y < b.y + b.height && b.y < a.y
        + a.height)
}

/// The tile lies inside the given rectangle.
pub open spec fn tile_in(t: TileView, x: int, y: int, w: int, h: int) -> bool {
    &&& x <= t.x
    &&& t.x + t.width <= x + w
    &&& y <= t.y
    &&& t.y + t.height <= y + h
    &&& t.width >= 0
    &&& t.height >= 0
}

pub open spec fn sum_areas(s: Seq<TileView>) -> int
    decreases s.len(),
{
    if s.len() == 0 {
        0
    } else {
        s[0].width * s[0].height + sum_areas(s.skip(1))
    }
}

pub proof fn lemma_sum_areas_add(a: Seq<TileView>, b: Seq<TileView>)
    ensures
        sum_areas(a + b) == sum_areas(a) + sum_areas(b),
    decreases a.len(),
{
    if a.len() == 0 {
        assert(a + b =~= b);
    } else {
        assert((a + b)[0] == a[0]);
        assert((a + b).skip(1) =~= a.skip(1) + b);
        lemma_sum_areas_add(a.skip(1), b);
    }
}

/// Stack the items of one row along a strip: the strip runs from `(x, y)`,
/// `thick` across and `span` along the stacking axis; each item gets the
/// share of the remaining span that its weight holds of the remaining
/// weight, and the last item takes what is left, so the strip is tiled
/// exactly.
pub open spec fn stack_tiles(
    row: Seq<ItemView>,
    x: int,
    y: int,
    thick: int,
    span: int,
    vertical: bool,
) -> Seq<TileView>
    decreases row.len(),
{
    if row.len() == 0 {
        Seq::empty()
    } else {
        let seg = if row.len() == 1 {
            span
        } else {
            span * weight(row[0]) / sum_weights(row)
        };
        let t = if vertical {
            TileView {
                x,
                y,
                width: thick,
                height: seg,
                name: row[0].name,
                size: row[0].size,
            }
        } else {
            TileView {
                x,
                y,
                width: seg,
                height: thick,
                name: row[0].name,
                size: row[0].size,
            }
        };
        seq![t] + (if vertical {
            stack_tiles(row.skip(1), x, y + seg, thick, span - seg, true)
        } else {
            stack_tiles(row.skip(1), x + seg, y, thick, span - seg, false)
        })
    }
}

/// A strip is tiled exactly: one tile per item in order, all inside the
/// strip, pairwise disjoint, their areas adding up to the strip's.
pub proof fn lemma_stack_tiles(row: Seq<ItemView>, x: int, y: int, thick: int, span: int, vertical: bool)
    requires
        row.len() > 0,
        thick >= 0,
        span >= 0,
    ensures
        ({
            let r = stack_tiles(row, x, y, thick, span, vertical);
            &&& r.len() == row.len()
            &&& forall|i: int|
                0 <= i < r.len() ==> (#[trigger] r[i]).name == row[i].name && r[i].size
                    == row[i].size
            &&& forall|i: int|
                0 <= i < r.len() ==> tile_in(
                    #[trigger] r[i],
                    x,
                    y,
                    if vertical {
                        thick
                    } else {
                        span
                    },
                    if vertical {
                        span
                    } else {
                        thick
                    },
                )
            &&& forall|i: int, j: int|
                0 <= i < j < r.len() ==> tiles_disjoint(#[trigger] r[i], #[trigger] r[j])
            &&& sum_areas(r) == thick * span
        }),
    decreases row.len(),
{
    let r = stack_tiles(row, x, y, thick, span, vertical);
    lemma_sum_weights_bounds(row);
    let seg = if row.len() == 1 {
        span
    } else {
        span * weight(row[0]) / sum_weights(row)
    };
    if row.len() > 1 {
        lemma_mul_div_le(span, weight(row[0]), sum_weights(row));
    }
    assert(0 <= seg <= span);
    let rest = if vertical {
        stack_tiles(row.skip(1), x, y + seg, thick, span - seg, true)
    } else {
        stack_tiles(row.skip(1), x + seg, y, thick, span - seg, false)
    };
    let first = r[0];
    assert(r == seq![first] + rest) by {
        assert((seq![first] + rest)[0] == first);
        assert(r =~= seq![r[0]] + rest);
    }
    assert(r.skip(1) =~= rest);
    if row.len() == 1 {
        assert(rest =~= Seq::<TileView>::empty());
        assert(sum_areas(rest) == 0);
        assert(sum_areas(r) == first.width * first.height + sum_areas(rest));
        assert(first.width * first.height == thick * span) by (nonlinear_arith)
            requires
                (first.width == thick && first.height == span) || (first.width == span
                    && first.height == thick),
        ;
    } else {
        if vertical {
            lemma_stack_tiles(row.skip(1), x, y + seg, thick, span - seg, true);
        } else {
            lemma_stack_tiles(row.skip(1), x + seg, y, thick, span - seg, false);
        }
        assert(sum_areas(r) == first.width * first.height + sum_areas(rest));
        assert(first.width * first.height + (span - seg) * thick == thick * span)
            by (nonlinear_arith)
            requires
                (first.width == thick && first.height == seg) || (first.width == seg
                    && first.height == thick),
        ;
        assert((span - seg) * thick == thick * (span - seg)) by (nonlinear_arith);
    }
}

/// An aspect ratio as an exact fraction `num / den`, `num >= den`; a zero
/// denominator stands for a degenerate, infinitely thin tile.
pub open spec fn aspect(a: int, b: int) -> (int, int) {
    if a >= b {
        (a, b)
    } else {
        (b, a)
    }
}

pub open spec fn aspect_le(p: (int, int), q: (int, int)) -> bool {
    if p.1 == 0 {
        q.1 == 0
    } else if q.1 == 0 {
        true
    } else {
        p.0 * q.1 <= q.0 * p.1
    }
}

pub open spec fn aspect_max(p: (int, int), q: (int, int)) -> (int, int) {
    if aspect_le(p, q) {
        q
    } else {
        p
    }
}

/// The worst aspect ratio a row of the first `k` items would get: the row
/// takes a strip of the long side proportional to its weight, and within it
/// the extreme segments belong to the first (largest) and last (smallest)
/// item, the input being sorted by weight.
pub open spec fn worst_at(items: Seq<ItemView>, w: int, h: int, k: int) -> (int, int) {
    let long = if w >= h {
        w
    } else {
        h
    };
    let short = if w >= h {
        h
    } else {
        w
    };
    let total = sum_weights(items);
    let rs = sum_weights(items.take(k));
    let t = long * rs / total;
    let seg_first = short * weight(items[0]) / rs;
    let seg_last = short * weight(items[k - 1]) / rs;
    aspect_max(aspect(t, seg_first), aspect(t, seg_last))
}

pub open spec fn rc_from(items: Seq<ItemView>, w: int, h: int, k: int) -> int
    decreases items.len() - k,
{
    if k >= items.len() {
        items.len() as int
    } else if aspect_le(worst_at(items, w, h, k + 1), worst_at(items, w, h, k)) {
        rc_from(items, w, h, k + 1)
    } else {
        k
    }
}

/// How many leading items the next row takes: grow the row greedily while
/// its worst aspect ratio does not get worse.
pub open spec fn row_count(items: Seq<ItemView>, w: int, h: int) -> int {
    rc_from(items, w, h, 1)
}

pub proof fn lemma_row_count_bounds(items: Seq<ItemView>, w: int, h: int, k: int)
    requires
        1 <= k <= items.len(),
    ensures
        k <= rc_from(items, w, h, k) <= items.len(),
    decreases items.len() - k,
{
    if k < items.len() && aspect_le(worst_at(items, w, h, k + 1), worst_at(items, w, h, k)) {
        lemma_row_count_bounds(items, w, h, k + 1);
    }
}

/// The squarified treemap: repeatedly split a strip for the next row off
/// the longer axis of what is left, the strip's thickness proportional to
/// the row's share of the remaining weight; the last row takes the whole
/// remainder, so the rectangle is tiled exactly.
pub open spec fn layout_spec(items: Seq<ItemView>, x: int, y: int, w: int, h: int) -> Seq<
    TileView,
>
    decreases items.len(),
    via layout_spec_decreases
{
    if items.len() == 0 {
        Seq::empty()
    } else {
        let k = row_count(items, w, h);
        let row = items.take(k);
        let rest = items.skip(k);
        let share = sum_weights(row);
        let total = sum_weights(items);
        if w >= h {
            let t = if rest.len() == 0 {
                w
            } else {
                w * share / total
            };
            stack_tiles(row, x, y, t, h, true) + layout_spec(rest, x + t, y, w - t, h)
        } else {
            let t = if rest.len() == 0 {
                h
            } else {
                h * share / total
            };
            stack_tiles(row, x, y, t, w, false) + layout_spec(rest, x, y + t, w, h - t)
        }
    }
}

#[via_fn]
proof fn layout_spec_decreases(items: Seq<ItemView>, x: int, y: int, w: int, h: int) {
    if items.len() > 0 {
        lemma_row_count_bounds(items, w, h, 1);
    }
}

/// The layout partitions the rectangle: one tile per item, in order and
/// carrying its item's name and size; every tile inside the rectangle;
/// tiles pairwise disjoint; and the tile areas adding up to the whole
/// rectangle's, so nothing is left uncovered.
pub proof fn lemma_layout_partition(items: Seq<ItemView>, x: int, y: int, w: int, h: int)
    requires
        w >= 0,
        h >= 0,
    ensures
        ({
            let r = layout_spec(items, x, y, w, h);
            &&& r.len() == items.len()
            &&& forall|i: int|
                0 <= i < r.len() ==> (#[trigger] r[i]).name == items[i].name && r[i].size
                    == items[i].size
            &&& forall|i: int| 0 <= i < r.len() ==> tile_in(#[trigger] r[i], x, y, w, h)
            &&& forall|i: int, j: int|
                0 <= i < j < r.len() ==> tiles_disjoint(#[trigger] r[i], #[trigger] r[j])
            &&& items.len() > 0 ==> sum_areas(r) == w * h
        }),
    decreases items.len(),
{
    if items.len() > 0 {
        let r = layout_spec(items, x, y, w, h);
        let k = row_count(items, w, h);
        lemma_row_count_bounds(items, w, h, 1);
        let row = items.take(k);
        let rest = items.skip(k);
        let share = sum_weights(row);
        let total = sum_weights(items);
        lemma_sum_weights_bounds(items);
        lemma_sum_weights_bounds(row);
        lemma_sum_weights_split(items, k);
        lemma_sum_weights_bounds(rest);
        let long = if w >= h {
            w
        } else {
            h
        };
        let t = if rest.len() == 0 {
            long
        } else {
            long * share / total
        };
        if rest.len() == 0 {
            assert(t == long);
        } else {
            lemma_mul_div_le(long, share, total);
        }
        assert(0 <= t <= long);
        let strip = if w >= h {
            stack_tiles(row, x, y, t, h, true)
        } else {
            stack_tiles(row, x, y, t, w, false)
        };
        let tail = if w >= h {
            layout_spec(rest, x + t, y, w - t, h)
        } else {
            layout_spec(rest, x, y + t, w, h - t)
        };
        if w >= h {
            lemma_stack_tiles(row, x, y, t, h, true);
            lemma_layout_partition(rest, x + t, y, w - t, h);
        } else {
            lemma_stack_tiles(row, x, y, t, w, false);
            lemma_layout_partition(rest, x, y + t, w, h - t);
        }
        assert(r == strip + tail);
        lemma_sum_areas_add(strip, tail);
        if rest.len() == 0 {
            assert(r.len() == items.len());
            assert(sum_areas(tail) == 0);
            assert(t * (if w >= h { h } else { w }) == w * h) by (nonlinear_arith)
                requires (w >= h && t == w) || (w < h && t == h),
            ;
        } else {
            assert(sum_areas(r) == t * (if w >= h { h } else { w }) + sum_areas(tail));
            assert(t * h + (w - t) * h == w * h) by (nonlinear_arith);
            assert(t * w + (h - t) * w == h * w && h * w == w * h) by (nonlinear_arith);
        }
        assert forall|i: int| 0 <= i < r.len() implies (#[trigger] r[i]).name == items[i].name
            && r[i].size == items[i].size by {
            if i < k {
                assert(r[i] == strip[i]);
                assert(row[i] == items[i]);
            } else {
                assert(r[i] == tail[i - k]);
                assert(rest[i - k] == items[i]);
            }
        }
        assert forall|i: int| 0 <= i < r.len() implies tile_in(#[trigger] r[i], x, y, w, h) by {
            if i < k {
                assert(r[i] == strip[i]);
            } else {
                assert(r[i] == tail[i - k]);
            }
        }
        assert forall|i: int, j: int| 0 <= i < j < r.len() implies tiles_disjoint(
            #[trigger] r[i],
            #[trigger] r[j],
        ) by {
            if j < k {
                assert(r[i] == strip[i] && r[j] == strip[j]);
            } else if i >= k {
                assert(r[i] == tail[i - k] && r[j] == tail[j - k]);
            } else {
                assert(r[i] == strip[i] && r[j] == tail[j - k]);
            }
        }
    }
}

/// The most entries one directory may hold for the board to lay them out;
/// beyond it the board shows nothing rather than risk its arithmetic.
pub const MAX_LAYOUT_ITEMS: usize = 0x4000_0000;

const WEIGHT_BOUND: u128 = 0x1_0000_0000_0000_0000;

fn weight_of(m: &FileMetadata) -> (r: u128)
    ensures
        r == weight(m@),
        1 <= r < WEIGHT_BOUND,
{
    if m.size == 0 {
        1
    } else {
        m.size as u128
    }
}

proof fn lemma_sum_take_step(s: Seq<ItemView>, m: int)
    requires
        0 <= m < s.len(),
    ensures
        sum_weights(s.take(m + 1)) == sum_weights(s.take(m)) + weight(s[m]),
{
    lemma_sum_weights_split(s.take(m + 1), m);
    assert(s.take(m + 1).take(m) =~= s.take(m));
    assert(s.take(m + 1).skip(m) =~= seq![s[m]]);
    assert(seq![s[m]].len() == 1 && seq![s[m]][0] == s[m]);
    assert(seq![s[m]].skip(1) =~= Seq::<ItemView>::empty());
    assert(sum_weights(Seq::<ItemView>::empty()) == 0);
    assert(sum_weights(seq![s[m]]) == weight(s[m]) + 0);
}

/// Total weight of `items[start..]`.
fn total_weights(items: &Vec<FileMetadata>, start: usize) -> (r: u128)
    requires
        start <= items@.len(),
        items@.len() <= MAX_LAYOUT_ITEMS,
    ensures
        r == sum_weights(items_view(items@).skip(start as int)),
        r <= (items@.len() - start) * WEIGHT_BOUND,
    decreases items@.len() - start,
{
    let ghost iv = items_view(items@).skip(start as int);
    proof {
        lemma_sum_weights_bounds(iv);
    }
    if start == items.len() {
        0
    } else {
        proof {
            assert(iv.skip(1) =~= items_view(items@).skip(start + 1 as int));
            lemma_sum_weights_bounds(iv.skip(1));
        }
        let w = weight_of(&items[start]);
        let rest = total_weights(items, start + 1);
        w + rest
    }
}

/// Exec mirror of `aspect_le` on small pixel quantities.
fn aspect_le_exec(p: (u128, u128), q: (u128, u128)) -> (r: bool)
    requires
        p.0 <= 0xFFFF,
        p.1 <= 0xFFFF,
        q.0 <= 0xFFFF,
        q.1 <= 0xFFFF,
    ensures
        r == aspect_le((p.0 as int, p.1 as int), (q.0 as int, q.1 as int)),
{
    if p.1 == 0 {
        q.1 == 0
    } else if q.1 == 0 {
        true
    } else {
        proof {
            lemma_u128_mul_bound(p.0 as int, q.1 as int, 0xFFFF, 0xFFFF);
            lemma_u128_mul_bound(q.0 as int, p.1 as int, 0xFFFF, 0xFFFF);
        }
        p.0 * q.1 <= q.0 * p.1
    }
}

/// Bounded factors give a bounded product.
pub proof fn lemma_u128_mul_bound(a: int, b: int, cap_a: int, cap_b: int)
    requires
        0 <= a <= cap_a,
        0 <= b <= cap_b,
    ensures
        0 <= a * b <= cap_a * cap_b,
{
    assert(0 <= a * b <= cap_a * cap_b) by (nonlinear_arith)
        requires
            0 <= a <= cap_a,
            0 <= b <= cap_b,
    ;
}

fn aspect_exec(a: u128, b: u128) -> (r: (u128, u128))
    ensures
        (r.0 as int, r.1 as int) == aspect(a as int, b as int),
{
    if a >= b {
        (a, b)
    } else {
        (b, a)
    }
}

/// Exec mirror of `worst_at` for the row `items[start..start + k]`.
fn worst_exec(
    items: &Vec<FileMetadata>,
    start: usize,
    k: usize,
    w: u16,
    h: u16,
    total: u128,
    rs: u128,
) -> (r: (u128, u128))
    requires
        start < items@.len(),
        items@.len() <= MAX_LAYOUT_ITEMS,
        1 <= k,
        start + k <= items@.len(),
        total == sum_weights(items_view(items@).skip(start as int)),
        rs == sum_weights(items_view(items@).skip(start as int).take(k as int)),
    ensures
        (r.0 as int, r.1 as int) == worst_at(
            items_view(items@).skip(start as int),
            w as int,
            h as int,
            k as int,
        ),
        r.0 <= 0xFFFF,
        r.1 <= 0xFFFF,
{
    let ghost iv = items_view(items@).skip(start as int);
    let long: u128 = if w >= h {
        w as u128
    } else {
        h as u128
    };
    let short: u128 = if w >= h {
        h as u128
    } else {
        w as u128
    };
    proof {
        lemma_sum_weights_bounds(iv);
        lemma_sum_weights_bounds(iv.take(k as int));
        lemma_sum_weights_split(iv, k as int);
        lemma_sum_weights_bounds(iv.skip(k as int));
        assert(iv.take(k as int)[0] == iv[0]);
        lemma_u128_mul_bound(iv.len() as int, WEIGHT_BOUND as int, MAX_LAYOUT_ITEMS as int, WEIGHT_BOUND as int);
        lemma_u128_mul_bound(long as int, rs as int, 0x1_0000, MAX_LAYOUT_ITEMS as int * WEIGHT_BOUND as int);
        lemma_mul_div_le(long as int, rs as int, total as int);
    }
    let t = long * rs / total;
    let w_first = weight_of(&items[start]);
    let w_last = weight_of(&items[start + k - 1]);
    proof {
        assert(iv[0] == items@[start as int]@);
        assert(iv[k - 1 as int] == items@[start + k - 1 as int]@);
        lemma_sum_weights_split(iv.take(k as int), k - 1 as int);
        lemma_sum_weights_bounds(iv.take(k as int).skip(k - 1 as int));
        lemma_sum_weights_bounds(iv.take(k as int).take(k - 1 as int));
        assert(iv.take(k as int).skip(k - 1 as int)[0] == iv[k - 1 as int]);
        assert(weight(iv[k - 1 as int]) <= rs);
        lemma_sum_weights_split(iv.take(k as int), 1);
        assert(iv.take(k as int).take(1)[0] == iv[0]);
        assert(iv.take(k as int).take(1).skip(1) =~= Seq::<ItemView>::empty());
        assert(sum_weights(Seq::<ItemView>::empty()) == 0);
        assert(sum_weights(iv.take(k as int).take(1)) == weight(iv[0]) + 0);
        lemma_sum_weights_bounds(iv.take(k as int).skip(1));
        assert(weight(iv[0]) <= rs);
        lemma_u128_mul_bound(short as int, weight(iv[0]), 0x1_0000, WEIGHT_BOUND as int);
        lemma_u128_mul_bound(short as int, weight(iv[k - 1 as int]), 0x1_0000, WEIGHT_BOUND as int);
        lemma_mul_div_le(short as int, weight(iv[0]), rs as int);
        lemma_mul_div_le(short as int, weight(iv[k - 1 as int]), rs as int);
    }
    let seg_first = short * w_first / rs;
    let seg_last = short * w_last / rs;
    let a1 = aspect_exec(t, seg_first);
    let a2 = aspect_exec(t, seg_last);
    if aspect_le_exec(a1, a2) {
        a2
    } else {
        a1
    }
}

/// Exec mirror of `rc_from`: grow the row while its worst aspect ratio
/// does not get worse.
fn rc_exec(items: &Vec<FileMetadata>, start: usize, w: u16, h: u16, total: u128, k: usize, rs: u128) -> (r: (
    usize,
    u128,
))
    requires
        start < items@.len(),
        items@.len() <= MAX_LAYOUT_ITEMS,
        1 <= k,
        start + k <= items@.len(),
        total == sum_weights(items_view(items@).skip(start as int)),
        rs == sum_weights(items_view(items@).skip(start as int).take(k as int)),
    ensures
        r.0 as int == rc_from(items_view(items@).skip(start as int), w as int, h as int, k as int),
        k <= r.0,
        start + r.0 <= items@.len(),
        r.1 == sum_weights(items_view(items@).skip(start as int).take(r.0 as int)),
    decreases items@.len() - start - k,
{
    let ghost iv = items_view(items@).skip(start as int);
    let n = items.len() - start;
    if k == n {
        proof {
            assert(iv.len() == n as int);
        }
        (k, rs)
    } else {
        let w_next = weight_of(&items[start + k]);
        proof {
            assert(iv[k as int] == items@[start + k as int]@);
            lemma_sum_take_step(iv, k as int);
            lemma_sum_weights_bounds(iv);
            lemma_sum_weights_split(iv, k + 1 as int);
            lemma_sum_weights_bounds(iv.skip(k + 1 as int));
        }
        let rs_next = rs + w_next;
        let worst_here = worst_exec(items, start, k, w, h, total, rs);
        let worst_next = worst_exec(items, start, k + 1, w, h, total, rs_next);
        if aspect_le_exec(worst_next, worst_here) {
            rc_exec(items, start, w, h, total, k + 1, rs_next)
        } else {
            (k, rs)
        }
    }
}

fn clone_metadata(m: &FileMetadata) -> (r: FileMetadata)
    ensures
        r@ == m@,
{
    FileMetadata { name: crate::files::clone_bytes(&m.name), size: m.size }
}

/// Lay the row `items[start..start + count]` along one strip, mirroring
/// `stack_tiles` tile for tile.
fn stack_exec(
    items: &Vec<FileMetadata>,
    start: usize,
    count: usize,
    x: u16,
    y: u16,
    thick: u16,
    span: u16,
    rsum: u128,
    vertical: bool,
    out: &mut Vec<Tile>,
)
    requires
        1 <= count,
        start + count <= items@.len(),
        rsum == sum_weights(items_view(items@).subrange(start as int, start + count as int)),
        x + (if vertical { thick as int } else { span as int }) <= 0xFFFF,
        y + (if vertical { span as int } else { thick as int }) <= 0xFFFF,
    ensures
        tiles_view(final(out)@) =~= tiles_view(old(out)@) + stack_tiles(
            items_view(items@).subrange(start as int, start + count as int),
            x as int,
            y as int,
            thick as int,
            span as int,
            vertical,
        ),
    decreases count,
{
    let ghost row = items_view(items@).subrange(start as int, start + count as int);
    let items_len = items.len();
    proof {
        assert(start + count <= items_len);
        lemma_sum_weights_bounds(row);
        assert(row[0] == items@[start as int]@);
    }
    let w0 = weight_of(&items[start]);
    let seg: u16 = if count == 1 {
        span
    } else {
        proof {
            lemma_sum_weights_split(row, 1);
            assert(row.take(1)[0] == row[0]);
            assert(row.take(1).skip(1) =~= Seq::<ItemView>::empty());
            assert(sum_weights(Seq::<ItemView>::empty()) == 0);
            assert(sum_weights(row.take(1)) == weight(row[0]) + 0);
            lemma_sum_weights_bounds(row.skip(1));
            assert(weight(row[0]) <= rsum);
            lemma_u128_mul_bound(span as int, w0 as int, 0x1_0000, WEIGHT_BOUND as int);
            lemma_mul_div_le(span as int, w0 as int, rsum as int);
        }
        ((span as u128) * w0 / rsum) as u16
    };
    let tile = if vertical {
        Tile {
            rect: Rect { x, y, width: thick, height: seg },
            file_metadata: clone_metadata(&items[start]),
        }
    } else {
        Tile {
            rect: Rect { x, y, width: seg, height: thick },
            file_metadata: clone_metadata(&items[start]),
        }
    };
    proof {
        assert(stack_tiles(row, x as int, y as int, thick as int, span as int, vertical)[0]
            == tile@) by {
            let s0 = stack_tiles(row, x as int, y as int, thick as int, span as int, vertical);
            assert(s0 =~= seq![s0[0]] + s0.skip(1)) by {
                assert(s0.len() > 0);
            }
        }
    }
    out.push(tile);
    if count > 1 {
        proof {
            assert(row.skip(1) =~= items_view(items@).subrange(
                start + 1 as int,
                start + 1 + (count - 1) as int,
            ));
            lemma_sum_weights_split(row, 1);
            assert(row.take(1)[0] == row[0]);
            assert(row.take(1).skip(1) =~= Seq::<ItemView>::empty());
            assert(sum_weights(Seq::<ItemView>::empty()) == 0);
            assert(sum_weights(row.take(1)) == weight(row[0]) + 0);
        }
        if vertical {
            stack_exec(items, start + 1, count - 1, x, y + seg, thick, span - seg, rsum - w0, true, out);
        } else {
            stack_exec(items, start + 1, count - 1, x + seg, y, thick, span - seg, rsum - w0, false, out);
        }
        proof {
            let full = stack_tiles(row, x as int, y as int, thick as int, span as int, vertical);
            let rest = stack_tiles(
                row.skip(1),
                if vertical {
                    x as int
                } else {
                    x + seg as int
                },
                if vertical {
                    y + seg as int
                } else {
                    y as int
                },
                thick as int,
                span - seg as int,
                vertical,
            );
            assert(full =~= seq![full[0]] + rest);
            assert(tiles_view(final(out)@) =~= tiles_view(old(out)@) + full);
        }
    } else {
        proof {
            reveal_with_fuel(stack_tiles, 2);
            let full = stack_tiles(row, x as int, y as int, thick as int, span as int, vertical);
            assert(row.skip(1).len() == 0);
            assert(full =~= seq![full[0]]);
            assert(tiles_view(final(out)@) =~= tiles_view(old(out)@) + full);
        }
    }
}

/// Lay out `items[start..]` inside the given rectangle, mirroring
/// `layout_spec` strip by strip.
fn layout_range(
    items: &Vec<FileMetadata>,
    start: usize,
    x: u16,
    y: u16,
    w: u16,
    h: u16,
    out: &mut Vec<Tile>,
)
    requires
        start <= items@.len(),
        items@.len() <= MAX_LAYOUT_ITEMS,
        x + w <= 0xFFFF,
        y + h <= 0xFFFF,
    ensures
        tiles_view(final(out)@) =~= tiles_view(old(out)@) + layout_spec(
            items_view(items@).skip(start as int),
            x as int,
            y as int,
            w as int,
            h as int,
        ),
    decreases items@.len() - start,
{
    let ghost iv = items_view(items@).skip(start as int);
    let n = items.len() - start;
    if n == 0 {
        proof {
            assert(iv.len() == 0);
            assert(tiles_view(final(out)@) =~= tiles_view(old(out)@) + layout_spec(
                iv,
                x as int,
                y as int,
                w as int,
                h as int,
            ));
        }
        return ;
    }
    let total = total_weights(items, start);
    proof {
        lemma_sum_weights_bounds(iv);
        assert(iv.take(1)[0] == iv[0]);
        assert(iv.take(1).skip(1) =~= Seq::<ItemView>::empty());
        assert(sum_weights(Seq::<ItemView>::empty()) == 0);
        assert(sum_weights(iv.take(1)) == weight(iv[0]) + 0);
        assert(iv[0] == items@[start as int]@);
    }
    let w0 = weight_of(&items[start]);
    let (k, rs) = rc_exec(items, start, w, h, total, 1, w0);
    proof {
        lemma_row_count_bounds(iv, w as int, h as int, 1);
        lemma_sum_weights_split(iv, k as int);
        lemma_sum_weights_bounds(iv.take(k as int));
        lemma_sum_weights_bounds(iv.skip(k as int));
        assert(iv.take(k as int) =~= items_view(items@).subrange(start as int, start + k as int));
    }
    let vertical = w >= h;
    let long: u16 = if vertical {
        w
    } else {
        h
    };
    let short: u16 = if vertical {
        h
    } else {
        w
    };
    let t: u16 = if k == n {
        long
    } else {
        proof {
            lemma_u128_mul_bound(iv.len() as int, WEIGHT_BOUND as int, MAX_LAYOUT_ITEMS as int, WEIGHT_BOUND as int);
            lemma_u128_mul_bound(long as int, rs as int, 0x1_0000, MAX_LAYOUT_ITEMS as int * WEIGHT_BOUND as int);
            lemma_mul_div_le(long as int, rs as int, total as int);
        }
        ((long as u128) * rs / total) as u16
    };
    if vertical {
        stack_exec(items, start, k, x, y, t, h, rs, true, out);
        layout_range(items, start + k, x + t, y, w - t, h, out);
    } else {
        stack_exec(items, start, k, x, y, t, w, rs, false, out);
        layout_range(items, start + k, x, y + t, w, h - t, out);
    }
    proof {
        assert(iv.skip(k as int) =~= items_view(items@).skip(start + k as int));
        let full = layout_spec(iv, x as int, y as int, w as int, h as int);
        let strip = stack_tiles(
            iv.take(k as int),
            x as int,
            y as int,
            t as int,
            if vertical {
                h as int
            } else {
                w as int
            },
            vertical,
        );
        let rest = layout_spec(
            iv.skip(k as int),
            if vertical {
                x + t as int
            } else {
                x as int
            },
            if vertical {
                y as int
            } else {
                y + t as int
            },
            if vertical {
                w - t as int
            } else {
                w as int
            },
            if vertical {
                h as int
            } else {
                h - t as int
            },
        );
        assert(full == strip + rest);
        assert(tiles_view(final(out)@) =~= tiles_view(old(out)@) + full);
    }
}

/// Lexicographic order on names, byte by byte.
pub open spec fn lex_le(a: Seq<u8>, b: Seq<u8>) -> bool
    decreases a.len(),
{
    if a.len() == 0 {
        true
    } else if b.len() == 0 {
        false
    } else if a[0] < b[0] {
        true
    } else if a[0] > b[0] {
        false
    } else {
        lex_le(a.skip(1), b.skip(1))
    }
}

/// Layout order: heavier entries first, ties broken alphabetically, so the
/// same entries always lay out the same way.
pub open spec fn item_le(a: ItemView, b: ItemView) -> bool {
    b.size < a.size || (a.size == b.size && lex_le(a.name, b.name))
}

pub open spec fn item_leq() -> spec_fn(ItemView, ItemView) -> bool {
    |a: ItemView, b: ItemView| item_le(a, b)
}

proof fn lemma_lex_total(a: Seq<u8>, b: Seq<u8>)
    ensures
        lex_le(a, b) || lex_le(b, a),
    decreases a.len(),
{
    if a.len() > 0 && b.len() > 0 && a[0] == b[0] {
        lemma_lex_total(a.skip(1), b.skip(1));
    }
}

proof fn lemma_lex_antisym(a: Seq<u8>, b: Seq<u8>)
    requires
        lex_le(a, b),
        lex_le(b, a),
    ensures
        a == b,
    decreases a.len(),
{
    if a.len() == 0 {
        assert(b.len() == 0);
        assert(a =~= b);
    } else {
        assert(b.len() > 0);
        assert(a[0] == b[0]);
        lemma_lex_antisym(a.skip(1), b.skip(1));
        assert(a.skip(1) == b.skip(1));
        assert(a.skip(1).len() == a.len() - 1);
        assert(b.skip(1).len() == b.len() - 1);
        assert(a =~= b) by {
            assert(forall|i: int| 1 <= i < a.len() ==> #[trigger] a[i] == a.skip(1)[i - 1]);
            assert(forall|i: int| 1 <= i < b.len() ==> #[trigger] b[i] == b.skip(1)[i - 1]);
        }
    }
}

proof fn lemma_lex_trans(a: Seq<u8>, b: Seq<u8>, c: Seq<u8>)
    requires
        lex_le(a, b),
        lex_le(b, c),
    ensures
        lex_le(a, c),
    decreases a.len(),
{
    if a.len() > 0 {
        assert(b.len() > 0);
        assert(c.len() > 0);
        if a[0] == b[0] && b[0] == c[0] {
            lemma_lex_trans(a.skip(1), b.skip(1), c.skip(1));
        }
    }
}

/// The layout order is a total order, so sorting by it is canonical.
pub proof fn lemma_item_total_ordering()
    ensures
        vstd::relations::total_ordering(item_leq()),
{
    let leq = item_leq();
    assert forall|x: ItemView| #[trigger] leq(x, x) by {
        lemma_lex_total(x.name, x.name);
    }
    assert forall|x: ItemView, y: ItemView| #[trigger] leq(x, y) && #[trigger] leq(y, x) implies x
        == y by {
        lemma_lex_antisym(x.name, y.name);
        assert(x =~= y);
    }
    assert forall|x: ItemView, y: ItemView, z: ItemView|
        #[trigger] leq(x, y) && #[trigger] leq(y, z) implies leq(x, z) by {
        if x.size == y.size && y.size == z.size {
            lemma_lex_trans(x.name, y.name, z.name);
        }
    }
    assert forall|x: ItemView, y: ItemView| #[trigger] leq(x, y) || #[trigger] leq(y, x) by {
        if x.size == y.size {
            lemma_lex_total(x.name, y.name);
        }
    }
}

/// The same entries, in whatever order they were discovered, always produce
/// the same tile list.
pub proof fn lemma_layout_deterministic(s1: Seq<ItemView>, s2: Seq<ItemView>, area: Rect)
    requires
        s1.to_multiset() == s2.to_multiset(),
    ensures
        layout_spec(
            s1.sort_by(item_leq()),
            area.x as int,
            area.y as int,
            area.width as int,
            area.height as int,
        ) == layout_spec(
            s2.sort_by(item_leq()),
            area.x as int,
            area.y as int,
            area.width as int,
            area.height as int,
        ),
{
    lemma_item_total_ordering();
    s1.lemma_sort_by_ensures(item_leq());
    s2.lemma_sort_by_ensures(item_leq());
    vstd::seq_lib::lemma_sorted_unique(s1.sort_by(item_leq()), s2.sort_by(item_leq()), item_leq());
}

fn lex_le_exec(a: &Vec<u8>, b: &Vec<u8>) -> (r: bool)
    ensures
        r == lex_le(a@, b@),
{
    let mut i: usize = 0;
    proof {
        assert(a@.skip(0) =~= a@);
        assert(b@.skip(0) =~= b@);
    }
    loop
        invariant
            i <= a@.len(),
            i <= b@.len(),
            lex_le(a@, b@) == lex_le(a@.skip(i as int), b@.skip(i as int)),
        decreases a@.len() - i,
    {
        if i == a.len() {
            proof {
                assert(a@.skip(i as int).len() == 0);
            }
            return true;
        }
        if i == b.len() {
            proof {
                assert(b@.skip(i as int).len() == 0);
                assert(a@.skip(i as int).len() > 0);
            }
            return false;
        }
        proof {
            assert(a@.skip(i as int)[0] == a@[i as int]);
            assert(b@.skip(i as int)[0] == b@[i as int]);
        }
        if a[i] < b[i] {
            return true;
        }
        if a[i] > b[i] {
            return false;
        }
        proof {
            assert(a@.skip(i as int).skip(1) =~= a@.skip(i + 1 as int));
            assert(b@.skip(i as int).skip(1) =~= b@.skip(i + 1 as int));
        }
        i += 1;
    }
}

fn item_le_exec(a: &FileMetadata, b: &FileMetadata) -> (r: bool)
    ensures
        r == item_le(a@, b@),
{
    if b.size < a.size {
        true
    } else if a.size == b.size {
        lex_le_exec(&a.name, &b.name)
    } else {
        false
    }
}

/// Sort entries into the canonical layout order: repeatedly move the least
/// remaining entry across.
fn sort_items(input: Vec<FileMetadata>) -> (out: Vec<FileMetadata>)
    ensures
        items_view(out@) == items_view(input@).sort_by(item_leq()),
        out@.len() == input@.len(),
{
    let ghost orig = items_view(input@);
    let mut rem = input;
    let mut out: Vec<FileMetadata> = Vec::new();
    proof {
        broadcast use vstd::seq_lib::group_to_multiset_ensures;
        broadcast use vstd::multiset::group_multiset_axioms;

        assert(items_view(out@) =~= Seq::<ItemView>::empty());
        assert(items_view(rem@) =~= orig);
        assert(Seq::<ItemView>::empty().to_multiset() =~= Multiset::<ItemView>::empty());
    }
    while rem.len() > 0
        invariant
            out@.len() + rem@.len() == orig.len(),
            items_view(out@).to_multiset().add(items_view(rem@).to_multiset())
                =~= orig.to_multiset(),
            vstd::relations::sorted_by(items_view(out@), item_leq()),
            forall|p: int, q: int|
                0 <= p < out@.len() && 0 <= q < rem@.len() ==> item_le(
                    (#[trigger] out@[p])@,
                    (#[trigger] rem@[q])@,
                ),
        decreases rem@.len(),
    {
        let mut m: usize = 0;
        let mut j: usize = 1;
        proof {
            lemma_item_total_ordering();
            let leq = item_leq();
            assert(leq(rem@[0]@, rem@[0]@));
        }
        while j < rem.len()
            invariant
                m < j <= rem@.len(),
                rem@.len() > 0,
                forall|p: int| 0 <= p < j ==> item_le(rem@[m as int]@, (#[trigger] rem@[p])@),
            decreases rem@.len() - j,
        {
            if !item_le_exec(&rem[m], &rem[j]) {
                proof {
                    lemma_item_total_ordering();
                    let leq = item_leq();
                    assert(leq(rem@[m as int]@, rem@[j as int]@) == item_le(
                        rem@[m as int]@,
                        rem@[j as int]@,
                    ));
                    assert(leq(rem@[j as int]@, rem@[m as int]@));
                    assert forall|p: int| 0 <= p < j + 1 implies item_le(
                        rem@[j as int]@,
                        (#[trigger] rem@[p])@,
                    ) by {
                        if p < j {
                            assert(leq(rem@[j as int]@, rem@[m as int]@));
                            assert(leq(rem@[m as int]@, rem@[p]@));
                            assert(leq(rem@[j as int]@, rem@[p]@));
                        } else {
                            assert(leq(rem@[j as int]@, rem@[j as int]@));
                        }
                    }
                }
                m = j;
            } else {
                proof {
                    lemma_item_total_ordering();
                    let leq = item_leq();
                    assert(leq(rem@[m as int]@, rem@[m as int]@));
                }
            }
            j += 1;
        }
        let ghost rem_before = rem@;
        let ghost out_before = out@;
        let x = rem.remove(m);
        out.push(x);
        proof {
            broadcast use vstd::seq_lib::group_to_multiset_ensures;
            broadcast use vstd::multiset::group_multiset_axioms;

            assert(items_view(rem@) =~= items_view(rem_before).remove(m as int));
            assert(items_view(out@) =~= items_view(out_before).push(x@));
            assert(items_view(rem_before)[m as int] == x@);
            assert(items_view(rem_before).remove(m as int).to_multiset() =~= items_view(
                rem_before,
            ).to_multiset().remove(x@));
            assert(items_view(rem_before).to_multiset().contains(x@)) by {
                assert(items_view(rem_before).contains(x@)) by {
                    assert(items_view(rem_before)[m as int] == x@);
                }
            }
            assert(items_view(out@).to_multiset().add(items_view(rem@).to_multiset())
                =~= orig.to_multiset());
            assert forall|p: int, q: int|
                0 <= p < out@.len() && 0 <= q < rem@.len() implies item_le(
                (#[trigger] out@[p])@,
                (#[trigger] rem@[q])@,
            ) by {
                let q0 = if q < m {
                    q
                } else {
                    q + 1
                };
                assert(rem@[q] == rem_before[q0]);
                if p < out@.len() - 1 {
                    assert(out@[p] == out_before[p]);
                } else {
                    assert(out@[p] == x);
                    assert(item_le(x@, rem_before[q0]@));
                }
            }
            let ov = items_view(out@);
            assert forall|p: int, q: int| 0 <= p < q < ov.len() implies item_leq()(
                #[trigger] ov[p],
                #[trigger] ov[q],
            ) by {
                assert(ov[p] == (out@[p])@);
                assert(ov[q] == (out@[q])@);
                if q < out@.len() - 1 {
                    assert(out@[p] == out_before[p] && out@[q] == out_before[q]);
                    assert(vstd::relations::sorted_by(items_view(out_before), item_leq()));
                    assert(items_view(out_before)[p] == (out_before[p])@);
                    assert(items_view(out_before)[q] == (out_before[q])@);
                    assert(item_leq()(items_view(out_before)[p], items_view(out_before)[q]));
                } else {
                    assert(out@[q] == x);
                    assert(out@[p] == out_before[p]);
                    assert(x == rem_before[m as int]);
                    assert(item_le(out_before[p]@, rem_before[m as int]@));
                }
            }
        }
    }
    proof {
        broadcast use vstd::seq_lib::group_to_multiset_ensures;
        broadcast use vstd::multiset::group_multiset_axioms;

        lemma_item_total_ordering();
        assert(items_view(rem@).to_multiset() =~= Multiset::<ItemView>::empty()) by {
            assert(items_view(rem@).len() == 0);
            assert(items_view(rem@) =~= Seq::<ItemView>::empty());
        }
        assert(items_view(out@).to_multiset() =~= orig.to_multiset());
        orig.lemma_sort_by_ensures(item_leq());
        vstd::seq_lib::lemma_sorted_unique(
            items_view(out@),
            orig.sort_by(item_leq()),
            item_leq(),
        );
    }
    out
}

/// The items a folder's children hand to the layout.
pub open spec fn folder_items(children: Seq<FileOrFolder>) -> Seq<ItemView> {
    Seq::new(children.len(), |i: int| ItemView { name: fof_name(children[i]), size: fof_size(children[i]) })
}

/// The tiles the board shows for a folder: its children, sorted into the
/// canonical order, laid out over the board's rectangle. A zero-size entry
/// takes part with weight one — the minimum-footprint policy — so it always
/// gets its own tile and a share of the rectangle; beside far heavier
/// siblings that share can still round down to zero cells, in which case
/// the entry stays in the tile list but without visible extent.
pub open spec fn board_tiles_spec(children: Seq<FileOrFolder>, area: Rect) -> Seq<TileView> {
    layout_spec(
        folder_items(children).sort_by(item_leq()),
        area.x as int,
        area.y as int,
        area.width as int,
        area.height as int,
    )
}

/// A direction the selection can move in.
#[derive(Clone, Copy, PartialEq, Eq, Structural, Debug)]
pub enum Direction {
    Left,
    Right,
    Up,
    Down,
}

/// The candidate lies wholly in the half-plane the direction points into.
pub open spec fn qualifies(s: TileView, c: TileView, d: Direction) -> bool {
    match d {
        Direction::Right => c.x >= s.x + s.width,
        Direction::Left => c.x + c.width <= s.x,
        Direction::Down => c.y >= s.y + s.height,
        Direction::Up => c.y + c.height <= s.y,
    }
}

/// Distance along the movement axis, from the selected tile's far edge.
pub open spec fn axis_dist(s: TileView, c: TileView, d: Direction) -> int {
    match d {
        Direction::Right => c.x - (s.x + s.width),
        Direction::Left => s.x - (c.x + c.width),
        Direction::Down => c.y - (s.y + s.height),
        Direction::Up => s.y - (c.y + c.height),
    }
}

/// Distance between tile centers across the movement axis, doubled to stay
/// in integers.
pub open spec fn perp_dist(s: TileView, c: TileView, d: Direction) -> int {
    let delta = match d {
        Direction::Right | Direction::Left => (2 * c.y + c.height) - (2 * s.y + s.height),
        Direction::Down | Direction::Up => (2 * c.x + c.width) - (2 * s.x + s.width),
    };
    if delta >= 0 {
        delta
    } else {
        -delta
    }
}

/// `a` is a strictly better target than `b`: nearer along the axis, or as
/// near and nearer across it.
pub open spec fn better(s: TileView, a: TileView, b: TileView, d: Direction) -> bool {
    axis_dist(s, a, d) < axis_dist(s, b, d) || (axis_dist(s, a, d) == axis_dist(s, b, d)
        && perp_dist(s, a, d) < perp_dist(s, b, d))
}

/// Exactly how one selection move changes the board: the tiles stay; the
/// selection lands on the first of the nearest qualifying tiles, and stays
/// put — no wraparound — when no tile lies in that direction.
pub open spec fn moved(o: Board, n: Board, d: Direction) -> bool {
    &&& n.tiles == o.tiles
    &&& n.area == o.area
    &&& {
        let ts = tiles_view(o.tiles@);
        if ts.len() == 0 {
            n.selected_index == o.selected_index
        } else {
            let s = ts[o.selected_index as int];
            let any = exists|j: int|
                0 <= j < ts.len() && j != o.selected_index && qualifies(s, #[trigger] ts[j], d);
            if !any {
                n.selected_index == o.selected_index
            } else {
                let nj = n.selected_index as int;
                &&& 0 <= nj < ts.len()
                &&& nj != o.selected_index
                &&& qualifies(s, ts[nj], d)
                &&& forall|j: int|
                    0 <= j < ts.len() && j != o.selected_index && qualifies(s, #[trigger] ts[j], d)
                        ==> !better(s, ts[j], ts[nj], d)
                &&& forall|j: int|
                    0 <= j < nj && j != o.selected_index && qualifies(s, #[trigger] ts[j], d)
                        ==> better(s, ts[nj], ts[j], d)
            }
        }
    }
}

/// The current layout, the selection into it, and the rectangle the board
/// covers.
pub struct Board {
    pub tiles: Vec<Tile>,
    pub selected_index: usize,
    pub area: Rect,
}

impl Board {
    /// The selection always points into the tile list while there is one.
    pub open spec fn inv(&self) -> bool {
        &&& self.tiles@.len() > 0 ==> self.selected_index < self.tiles@.len()
        &&& self.area.x == 0
        &&& self.area.y == 0
    }

    pub fn new(width: u16, height: u16) -> (r: Board)
        ensures
            r.inv(),
            r.tiles@.len() == 0,
            r.selected_index == 0,
            r.area == (Rect { x: 0, y: 0, width, height }),
    {
        Board { tiles: Vec::new(), selected_index: 0, area: Rect { x: 0, y: 0, width, height } }
    }

    /// Adopt a new terminal rectangle; the next rebuild lays tiles out in it.
    pub fn change_area(&mut self, width: u16, height: u16)
        requires
            old(self).inv(),
        ensures
            final(self).inv(),
            final(self).area == (Rect { x: 0, y: 0, width, height }),
            final(self).tiles == old(self).tiles,
            final(self).selected_index == old(self).selected_index,
    {
        self.area = Rect { x: 0, y: 0, width, height };
    }

    /// Rebuild the tile list for the folder now on display, keeping the
    /// selection index where possible and clamping it to the new list.
    /// Every child gets a tile, zero-size entries included (they weigh one
    /// in the layout, `board_tiles_spec` states the policy), so nothing on
    /// display can ever be unselectable for want of a tile.
    pub fn change_files(&mut self, folder: &Folder)
        requires
            old(self).inv(),
        ensures
            final(self).inv(),
            final(self).area == old(self).area,
            folder.children@.len() <= MAX_LAYOUT_ITEMS ==> tiles_view(final(self).tiles@)
                == board_tiles_spec(folder.children@, old(self).area),
            folder.children@.len() > MAX_LAYOUT_ITEMS ==> final(self).tiles@.len() == 0,
            final(self).selected_index == (if old(self).selected_index < final(self).tiles@.len() {
                old(self).selected_index as int
            } else if final(self).tiles@.len() > 0 {
                final(self).tiles@.len() - 1
            } else {
                0
            }),
    {
        let mut items: Vec<FileMetadata> = Vec::new();
        let mut i: usize = 0;
        proof {
            assert(items_view(items@) =~= folder_items(folder.children@).take(0));
        }
        while i < folder.children.len()
            invariant
                i <= folder.children@.len(),
                items@.len() == i,
                items_view(items@) == folder_items(folder.children@).take(i as int),
            decreases folder.children@.len() - i,
        {
            let child = &folder.children[i];
            let meta = match child {
                FileOrFolder::File(f) => FileMetadata {
                    name: crate::files::clone_bytes(&f.name),
                    size: f.size,
                },
                FileOrFolder::Folder(c) => FileMetadata {
                    name: crate::files::clone_bytes(&c.name),
                    size: c.size,
                },
            };
            proof {
                assert(meta@ == folder_items(folder.children@)[i as int]);
            }
            items.push(meta);
            proof {
                assert(items_view(items@) =~= folder_items(folder.children@).take(i + 1 as int));
            }
            i += 1;
        }
        proof {
            assert(folder_items(folder.children@).take(folder.children@.len() as int)
                =~= folder_items(folder.children@));
        }
        if items.len() > MAX_LAYOUT_ITEMS {
            self.tiles = Vec::new();
        } else {
            let sorted = sort_items(items);
            let mut out: Vec<Tile> = Vec::new();
            proof {
                assert(tiles_view(out@) =~= Seq::<TileView>::empty());
                assert(items_view(sorted@).skip(0) =~= items_view(sorted@));
            }
            layout_range(
                &sorted,
                0,
                self.area.x,
                self.area.y,
                self.area.width,
                self.area.height,
                &mut out,
            );
            proof {
                assert(Seq::<TileView>::empty() + layout_spec(
                    items_view(sorted@),
                    self.area.x as int,
                    self.area.y as int,
                    self.area.width as int,
                    self.area.height as int,
                ) =~= layout_spec(
                    items_view(sorted@),
                    self.area.x as int,
                    self.area.y as int,
                    self.area.width as int,
                    self.area.height as int,
                ));
            }
            self.tiles = out;
        }
        if self.selected_index >= self.tiles.len() {
            if self.tiles.len() > 0 {
                self.selected_index = self.tiles.len() - 1;
            } else {
                self.selected_index = 0;
            }
        }
    }

    /// Select the first tile again, so a fresh layout never leaves the
    /// selection pointing at stale content.
    pub fn reset_selected_index(&mut self)
        requires
            old(self).inv(),
        ensures
            final(self).inv(),
            final(self).tiles == old(self).tiles,
            final(self).area == old(self).area,
            final(self).selected_index == 0,
    {
        self.selected_index = 0;
    }

    /// The selected tile, or nothing while the layout is empty: this never
    /// panics.
    pub fn currently_selected(&self) -> (r: Option<&Tile>)
        requires
            self.inv(),
        ensures
            match r {
                Some(t) => self.tiles@.len() > 0 && *t == self.tiles@[self.selected_index as int],
                None => self.tiles@.len() == 0,
            },
    {
        if self.tiles.len() == 0 {
            None
        } else {
            Some(&self.tiles[self.selected_index])
        }
    }

    /// Move the selection to the nearest tile in the given direction; when
    /// none lies there, leave it unchanged.
    fn move_selected(&mut self, d: Direction)
        requires
            old(self).inv(),
        ensures
            final(self).inv(),
            moved(*old(self), *final(self), d),
    {
        if self.tiles.len() == 0 {
            return ;
        }
        let ghost ts = tiles_view(self.tiles@);
        let sel = self.selected_index;
        let s_rect = self.tiles[sel].rect;
        let ghost s = ts[sel as int];
        let mut best: usize = 0;
        let mut best_axis: u32 = 0;
        let mut best_perp: u32 = 0;
        let mut found = false;
        let mut j: usize = 0;
        while j < self.tiles.len()
            invariant
                old(self).inv(),
                *self == *old(self),
                ts == tiles_view(self.tiles@),
                sel == old(self).selected_index,
                sel < self.tiles@.len(),
                s == ts[sel as int],
                s_rect == self.tiles@[sel as int].rect,
                j <= self.tiles@.len(),
                !found ==> forall|p: int|
                    0 <= p < j && p != sel ==> !qualifies(s, #[trigger] ts[p], d),
                found ==> {
                    &&& best < j
                    &&& best != sel
                    &&& qualifies(s, ts[best as int], d)
                    &&& best_axis == axis_dist(s, ts[best as int], d)
                    &&& best_perp == perp_dist(s, ts[best as int], d)
                    &&& forall|p: int|
                        0 <= p < j && p != sel && qualifies(s, #[trigger] ts[p], d) ==> !better(
                            s,
                            ts[p],
                            ts[best as int],
                            d,
                        )
                    &&& forall|p: int|
                        0 <= p < best && p != sel && qualifies(s, #[trigger] ts[p], d) ==> better(
                            s,
                            ts[best as int],
                            ts[p],
                            d,
                        )
                },
            decreases self.tiles@.len() - j,
        {
            if j != sel {
                let c_rect = self.tiles[j].rect;
                let ghost c = ts[j as int];
                let q = match d {
                    Direction::Right => c_rect.x as u32 >= s_rect.x as u32 + s_rect.width as u32,
                    Direction::Left => c_rect.x as u32 + c_rect.width as u32 <= s_rect.x as u32,
                    Direction::Down => c_rect.y as u32 >= s_rect.y as u32 + s_rect.height as u32,
                    Direction::Up => c_rect.y as u32 + c_rect.height as u32 <= s_rect.y as u32,
                };
                proof {
                    assert(q == qualifies(s, c, d));
                }
                if q {
                    let axis: u32 = match d {
                        Direction::Right => c_rect.x as u32 - (s_rect.x as u32
                            + s_rect.width as u32),
                        Direction::Left => s_rect.x as u32 - (c_rect.x as u32
                            + c_rect.width as u32),
                        Direction::Down => c_rect.y as u32 - (s_rect.y as u32
                            + s_rect.height as u32),
                        Direction::Up => s_rect.y as u32 - (c_rect.y as u32
                            + c_rect.height as u32),
                    };
                    let ca: u32 = match d {
                        Direction::Right | Direction::Left => 2 * c_rect.y as u32
                            + c_rect.height as u32,
                        Direction::Down | Direction::Up => 2 * c_rect.x as u32
                            + c_rect.width as u32,
                    };
                    let sa: u32 = match d {
                        Direction::Right | Direction::Left => 2 * s_rect.y as u32
                            + s_rect.height as u32,
                        Direction::Down | Direction::Up => 2 * s_rect.x as u32
                            + s_rect.width as u32,
                    };
                    let perp: u32 = if ca >= sa {
                        ca - sa
                    } else {
                        sa - ca
                    };
                    proof {
                        assert(axis == axis_dist(s, c, d));
                        assert(perp == perp_dist(s, c, d));
                    }
                    if !found || axis < best_axis || (axis == best_axis && perp < best_perp) {
                        best = j;
                        best_axis = axis;
                        best_perp = perp;
                        found = true;
                    }
                }
            }
            j += 1;
        }
        if found {
            self.selected_index = best;
        }
        proof {
            if found {
                assert(exists|p: int|
                    0 <= p < ts.len() && p != sel && qualifies(s, #[trigger] ts[p], d)) by {
                    assert(qualifies(s, ts[best as int], d));
                }
            }
        }
    }

    pub fn move_selected_right(&mut self)
        requires
            old(self).inv(),
        ensures
            final(self).inv(),
            moved(*old(self), *final(self), Direction::Right),
    {
        self.move_selected(Direction::Right)
    }

    pub fn move_selected_left(&mut self)
        requires
            old(self).inv(),
        ensures
            final(self).inv(),
            moved(*old(self), *final(self), Direction::Left),
    {
        self.move_selected(Direction::Left)
    }

    pub fn move_selected_down(&mut self)
        requires
            old(self).inv(),
        ensures
            final(self).inv(),
            moved(*old(self), *final(self), Direction::Down),
    {
        self.move_selected(Direction::Down)
    }

    pub fn move_selected_up(&mut self)
        requires
            old(self).inv(),
        ensures
            final(self).inv(),
            moved(*old(self), *final(self), Direction::Up),
    {
        self.move_selected(Direction::Up)
    }
}

} // verus!
