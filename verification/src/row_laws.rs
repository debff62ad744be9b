//! How the edges of a row are told apart and counted, and what the count makes
//! of the gaps between them.
use crate::geometry::Point;
use crate::hits::Hit;
use crate::laws;
use crate::ordered;
use crate::ordered::{Rank, Ranked};
use crate::region_list;
use crate::region_list::ShadeCommand;
use crate::regions;
use crate::regions::Region;
use crate::rounding;
use crate::scalar;
use crate::scalar::Scalar;
use core::ops::Range;
use vstd::arithmetic::power2::*;
use vstd::prelude::*;

verus! {

/// The heights are numbers, and at least 2^-23 lies between them.
pub open spec fn is_tall(range: Range<Scalar>) -> bool {
    &&& !range.start.is_nan() && !range.end.is_nan()
    &&& range.start.value() + pow2(126) <= range.end.value()
}

/// The heights of two hits overlap from both sides or from neither.
pub proof fn law_overlap_is_mutual(a: Hit, b: Hit)
    ensures
        regions::overlap(a, b) == regions::overlap(b, a),
{
}

/// Heights that share a stretch, however small, overlap.
pub proof fn law_shared_heights_overlap(a: Hit, b: Hit)
    requires
        !a.y_range.start.is_nan() && !a.y_range.end.is_nan(),
        !b.y_range.start.is_nan() && !b.y_range.end.is_nan(),
        a.y_range.start.value() < a.y_range.end.value(),
        b.y_range.start.value() < b.y_range.end.value(),
        a.y_range.start.value() < b.y_range.end.value(),
        b.y_range.start.value() < a.y_range.end.value(),
    ensures
        regions::overlap(a, b),
{
}

/// The value of a number is its own rounding.
proof fn lemma_rounds_to_itself(s: Scalar)
    requires
        s.is_finite(),
    ensures
        rounding::round(s.value()) == s.value(),
{
    scalar::lemma_significand_range(s.magnitude());
    rounding::lemma_round_exact(
        scalar::significand(s.magnitude()),
        scalar::unit_exponent(s.magnitude()),
    );
}

proof fn lemma_round_in_order(a: int, b: int)
    requires
        a <= b,
    ensures
        rounding::round(a) <= rounding::round(b),
{
    if a >= 0 {
        rounding::lemma_round_monotone(a as nat, b as nat);
    } else if b < 0 {
        rounding::lemma_round_monotone((-b) as nat, (-a) as nat);
    }
}

/// What is lowered by 2^-23 is not above what it was, and not below what lies
/// at least that far under it.
proof fn lemma_lowered(s: Scalar)
    requires
        s.is_finite(),
    ensures
        regions::lowered(s) <= s.value(),
        forall|t: Scalar| #[trigger]
            t.is_finite() && t.value() + pow2(126) <= s.value() ==> t.value()
                <= regions::lowered(s),
{
    lemma_rounds_to_itself(s);
    lemma_round_in_order(s.value() - pow2(126), s.value());
    assert forall|t: Scalar| #[trigger]
        t.is_finite() && t.value() + pow2(126) <= s.value() implies t.value() <= regions::lowered(
        s,
    ) by {
        lemma_rounds_to_itself(t);
        lemma_round_in_order(t.value(), s.value() - pow2(126));
    }
}

/// A tall range ends so high that lowering its end stays within it.
proof fn lemma_lowered_end(range: Range<Scalar>)
    requires
        is_tall(range),
    ensures
        range.start.value() <= regions::lowered(range.end) <= range.end.value(),
{
    range.start.lemma_size_kinds();
    range.end.lemma_size_kinds();
    lemma_pow2_pos(126);
    if range.end.is_finite() {
        lemma_lowered(range.end);
        if range.start.is_finite() {
            assert(range.start.value() <= regions::lowered(range.end));
        } else {
            lemma_past_infinity(range.end.value() - pow2(126));
        }
    }
}

/// Nothing rounds to less than minus infinity.
proof fn lemma_past_infinity(v: int)
    ensures
        -rounding::infinity() <= rounding::round(v) <= rounding::infinity(),
{
}

/// Heights of at least 2^-23 that keep apart do not overlap.
pub proof fn law_separate_heights_do_not_overlap(a: Hit, b: Hit)
    requires
        is_tall(a.y_range),
        is_tall(b.y_range),
        a.y_range.end.value() < b.y_range.start.value(),
    ensures
        !regions::overlap(a, b),
        !regions::overlap(b, a),
{
    lemma_pow2_pos(126);
    lemma_lowered_end(a.y_range);
    lemma_lowered_end(b.y_range);
}

/// Heights of at least 2^-23, the one beginning where the other ends, overlap
/// only where the numbers lie so far from each other that 2^-23 less is the
/// same number.
pub proof fn law_touching_heights(a: Hit, b: Hit)
    requires
        is_tall(a.y_range),
        is_tall(b.y_range),
        a.y_range.end.value() == b.y_range.start.value(),
        a.y_range.end.is_finite(),
    ensures
        ({
            let t = a.y_range.end.value();
            regions::overlap(a, b) <==> rounding::round(t - pow2(126)) == t
        }),
        regions::overlap(a, b) == regions::overlap(b, a),
{
    lemma_pow2_pos(126);
    lemma_lowered_end(a.y_range);
    lemma_lowered_end(b.y_range);
}

/// Rounding moves a size below 2^150 by less than 2^126.
proof fn lemma_rounds_near(x: nat)
    requires
        x < pow2(150),
    ensures
        x - pow2(126) < rounding::round_size(x) < x + pow2(126),
{
    let j = rounding::lemma_ulp_exponent(x);
    let (q, rest, unit) = (x / pow2(j), x % pow2(j), pow2(j));
    lemma2_to64();
    lemma_pow2_pos(j);
    lemma_pow2_pos(126);
    lemma_pow2_adds(23, 127);
    if j > 127 {
        lemma_pow2_strictly_increases(127, j);
    }
    assert(j <= 126);
    if j < 126 {
        lemma_pow2_strictly_increases(j, 126);
    }
    vstd::arithmetic::div_mod::lemma_fundamental_div_mod(x as int, unit as int);
    assert(q * unit == unit * q) by (nonlinear_arith);
    assert((q + 1) * unit == q * unit + unit) by (nonlinear_arith);
    assert(x - pow2(126) < rounding::to_units(q, rest, unit) < x + pow2(126));
    lemma_pow2_strictly_increases(126, 150);
    lemma_pow2_unfold(151);
    lemma_pow2_strictly_increases(151, 277);
}

/// Heights up to two, at least 2^-23 each, do not overlap where they only
/// touch, whichever of them is the lower one.
pub proof fn law_touching_heights_do_not_overlap(a: Hit, b: Hit)
    requires
        is_tall(a.y_range),
        is_tall(b.y_range),
        a.y_range.end.value() == b.y_range.start.value(),
        pow2(126) - pow2(150) < a.y_range.end.value() <= pow2(150),
    ensures
        !regions::overlap(a, b),
        !regions::overlap(b, a),
{
    let x = a.y_range.end.value() - pow2(126);
    a.y_range.end.lemma_size_kinds();
    lemma_pow2_pos(126);
    lemma_pow2_strictly_increases(126, 150);
    lemma_pow2_strictly_increases(150, 277);
    law_touching_heights(a, b);
    if x < 0 {
        lemma_rounds_near((-x) as nat);
    } else {
        lemma_rounds_near(x as nat);
    }
}

/// Heights from eight on, at least 2^-23 each, overlap where they touch: so
/// far from zero, 2^-23 makes no difference.
pub proof fn law_touching_heights_far_from_zero(a: Hit, b: Hit)
    requires
        is_tall(a.y_range),
        is_tall(b.y_range),
        a.y_range.end.value() == b.y_range.start.value(),
        a.y_range.end.is_finite(),
        a.y_range.end.value() >= pow2(152),
    ensures
        regions::overlap(a, b),
        regions::overlap(b, a),
{
    let s = a.y_range.end;
    let (m, e) = (
        scalar::significand(s.magnitude()),
        scalar::unit_exponent(s.magnitude()),
    );
    scalar::lemma_significand_range(s.magnitude());
    lemma2_to64();
    lemma_pow2_pos(152);
    assert(e >= 129) by {
        if e < 129 {
            lemma_pow2_adds(24, 128);
            if e < 128 {
                lemma_pow2_strictly_increases(e, 128);
            }
            assert(m * pow2(e) < 0x100_0000 * pow2(128)) by (nonlinear_arith)
                requires
                    m < 0x100_0000,
                    pow2(e) <= pow2(128),
                    pow2(128) > 0,
            ;
        }
    }
    lemma_pow2_unfold(127);
    lemma_pow2_unfold(128);
    if e > 129 {
        lemma_pow2_strictly_increases(129, e);
    }
    lemma_pow2_strictly_increases(128, 129);
    rounding::lemma_round_absorbs(m, e, pow2(126));
    law_touching_heights(a, b);
}

/// `range` holds the height of `v` steps.
pub open spec fn holds(range: Range<Scalar>, v: int) -> bool {
    &&& !range.start.is_nan() && !range.end.is_nan()
    &&& range.start.value() <= v < range.end.value()
}

/// `range` holds the height `s`, lowered by `d` steps.
pub open spec fn holds_lowered(range: Range<Scalar>, s: Scalar, d: int) -> bool {
    &&& !s.is_nan()
    &&& holds(
        range,
        if s.is_infinite() {
            s.value()
        } else {
            rounding::round(s.value() - d)
        },
    )
}

/// Two hits overlap exactly where the one begins within the other, or ends
/// within it after 2^-23 has been taken off its end. This also says what
/// becomes of heights of less than 2^-23, or of some that are no numbers.
pub proof fn law_overlap_by_ends(a: Hit, b: Hit)
    ensures
        regions::overlap(a, b) <==> {
            let (p, q, d) = (a.y_range, b.y_range, pow2(126) as int);
            ||| !q.start.is_nan() && holds(p, q.start.value())
            ||| !p.start.is_nan() && holds(q, p.start.value())
            ||| holds_lowered(p, q.end, d)
            ||| holds_lowered(q, p.end, d)
        },
{
}

/// Hits come in order exactly where the rows rise, and the columns within a
/// row.
pub proof fn law_order_of_hits(hits: Seq<Hit>)
    ensures
        ordered::increasing(hits) <==> forall|i: int, j: int|
            0 <= i < j < hits.len() ==> (#[trigger] hits[i]).y < (#[trigger] hits[j]).y
                || hits[i].y == hits[j].y && hits[i].x < hits[j].x,
{
    if ordered::increasing(hits) {
        assert forall|i: int, j: int| 0 <= i < j < hits.len() implies (#[trigger] hits[i]).y < (
        #[trigger] hits[j]).y || hits[i].y == hits[j].y && hits[i].x < hits[j].x by {
            assert(hits[i].ranked(hits[j]) == Rank::Before);
        }
    }
}

/// The hits from index `from` to index `k` are the first ones of one row.
pub open spec fn is_row_front(hits: Seq<Hit>, from: int, k: int) -> bool {
    &&& 0 <= from <= k < hits.len()
    &&& forall|j: int| from <= j <= k ==> (#[trigger] hits[j]).y == hits[k].y
    &&& from > 0 ==> hits[from - 1].y != hits[k].y
}

/// At index `j` of the row that begins at `from`, another edge begins: there is
/// no hit before it, or that one is of another segment and lies apart or at
/// heights that overlap.
pub open spec fn begins_edge(hits: Seq<Hit>, from: int, j: int) -> bool {
    ||| j == from
    ||| hits[j - 1].segment_id != hits[j].segment_id && (hits[j].x - hits[j - 1].x > 1
        || regions::overlap(hits[j - 1], hits[j]))
}

/// At how many indices from `from` to `k` another edge begins.
pub open spec fn edges_begun(hits: Seq<Hit>, from: int, k: int) -> nat
    decreases k - from + 1,
{
    if k < from {
        0
    } else {
        edges_begun(hits, from, k - 1) + (if begins_edge(hits, from, k) {
            1nat
        } else {
            0nat
        })
    }
}

/// The pixel (x, y) belongs to the span `region`.
pub open spec fn is_spanned(region: Region, x: int, y: int) -> bool {
    region matches Region::Span { start_x, end_x, y: row } && start_x <= x < end_x && row == y
}

/// The pixel (x, y) belongs to one of the spans.
pub open spec fn some_span(regions: Seq<Region>, x: int, y: int) -> bool {
    exists|i: int| 0 <= i < regions.len() && is_spanned(#[trigger] regions[i], x, y)
}

proof fn lemma_count(hits: Seq<Hit>, from: int, k: int)
    requires
        ordered::increasing(hits),
        is_row_front(hits, from, k),
    ensures
        regions::winding_number(hits, k) == edges_begun(hits, from, k),
    decreases k,
{
    assert(hits[k] == hits[k]);
    if k > from {
        assert(hits[k - 1].y == hits[k].y);
        assert(hits[k - 1].ranked(hits[k]) == Rank::Before);
        assert forall|j: int| from <= j <= k - 1 implies (#[trigger] hits[j]).y == hits[k
            - 1].y by {
            assert(hits[j].y == hits[k].y);
        }
        lemma_count(hits, from, k - 1);
    } else {
        assert(edges_begun(hits, from, k - 1) == 0);
    }
}

/// A span lies nowhere but between two neighbouring hits of its row.
pub proof fn law_spans_lie_in_gaps(hits: Seq<Hit>, x: int, y: int)
    requires
        ordered::increasing(hits),
        some_span(regions::regions_of(hits, hits.len() as int), x, y),
    ensures
        exists|k: int|
            0 < k < hits.len() && hits[k - 1].y == y && (#[trigger] hits[k]).y == y && hits[k
                - 1].x < x < hits[k].x,
{
    let all = regions::regions_of(hits, hits.len() as int);
    let i = choose|i: int| 0 <= i < all.len() && is_spanned(#[trigger] all[i], x, y);
    laws::law_spans_lie_between_hits(hits, hits.len() as int, i);
    let k = choose|k: int|
        {
            &&& 0 < k < hits.len()
            &&& #[trigger] regions::closes_span(hits, k)
            &&& hits[k - 1].y == hits[k].y
            &&& all[i]->start_x == hits[k - 1].x + 1
            &&& all[i]->end_x == hits[k].x
            &&& all[i]->Span_y == hits[k].y
        };
    assert(hits[k].y == y);
}

/// The pixels between two neighbouring hits of a row belong to a span exactly
/// where the hits are of different segments, an odd number of edges begins up
/// to the first of them, and they are not known to be uncovered.
pub proof fn law_spans_by_count(hits: Seq<Hit>, from: int, k: int, x: int)
    requires
        ordered::increasing(hits),
        0 < k < hits.len(),
        is_row_front(hits, from, k - 1),
        hits[k - 1].y == hits[k].y,
        hits[k - 1].x < x < hits[k].x,
    ensures
        some_span(regions::regions_of(hits, hits.len() as int), x, hits[k].y as int) <==> {
            &&& hits[k - 1].segment_id != hits[k].segment_id
            &&& edges_begun(hits, from, k - 1) % 2 == 1
            &&& !hits[k].uncovered
        },
{
    let n = hits.len() as int;
    let all = regions::regions_of(hits, n);
    let y = hits[k].y as int;
    lemma_count(hits, from, k - 1);
    if some_span(all, x, y) {
        lemma_span_at(hits, k, x);
    }
    if regions::closes_span(hits, k) {
        let i = lemma_span_of(hits, n, k);
        assert(is_spanned(all[i], x, y));
    }
}

/// Where hit `k` closes a span, that span is among the regions.
proof fn lemma_span_of(hits: Seq<Hit>, n: int, k: int) -> (i: int)
    requires
        ordered::increasing(hits),
        0 < k < n <= hits.len(),
        regions::closes_span(hits, k),
    ensures
        0 <= i < regions::regions_of(hits, n).len(),
        regions::regions_of(hits, n)[i] == (Region::Span {
            start_x: (hits[k - 1].x + 1) as isize,
            end_x: hits[k].x,
            y: hits[k].y,
        }),
    decreases n,
{
    let a = regions::regions_of(hits, n - 1);
    if k == n - 1 {
        let b = regions::regions_at(hits, k);
        assert(regions::regions_of(hits, n)[a.len() as int + 1] == b[1]);
        a.len() as int + 1
    } else {
        let i = lemma_span_of(hits, n - 1, k);
        assert(regions::regions_of(hits, n)[i] == a[i]);
        i
    }
}

/// A span between the hit before hit `k` and hit `k` is the one that `k` closes.
proof fn lemma_span_at(hits: Seq<Hit>, k: int, x: int)
    requires
        ordered::increasing(hits),
        0 < k < hits.len(),
        hits[k - 1].y == hits[k].y,
        hits[k - 1].x < x < hits[k].x,
        some_span(regions::regions_of(hits, hits.len() as int), x, hits[k].y as int),
    ensures
        regions::closes_span(hits, k),
{
    let all = regions::regions_of(hits, hits.len() as int);
    let y = hits[k].y as int;
    let i = choose|i: int| 0 <= i < all.len() && is_spanned(#[trigger] all[i], x, y);
    laws::law_spans_lie_between_hits(hits, hits.len() as int, i);
    let l = choose|l: int|
        {
            &&& 0 < l < hits.len()
            &&& #[trigger] regions::closes_span(hits, l)
            &&& hits[l - 1].y == hits[l].y
            &&& all[i]->start_x == hits[l - 1].x + 1
            &&& all[i]->end_x == hits[l].x
            &&& all[i]->Span_y == hits[l].y
        };
    if l < k {
        if l < k - 1 {
            assert(hits[l].ranked(hits[k - 1]) == Rank::Before);
        }
    } else if l > k {
        if l > k + 1 {
            assert(hits[k].ranked(hits[l - 1]) == Rank::Before);
        }
    }
}

/// The pixel (x, y) is shaded by a span command.
pub open spec fn some_span_command(commands: Seq<ShadeCommand>, x: int, y: int) -> bool {
    exists|i: int|
        0 <= i < commands.len() && (#[trigger] commands[i] matches ShadeCommand::Span {
            x: columns,
            y: row,
        } && columns.start <= x < columns.end && row == y)
}

/// Span commands shade the pixels of the spans, and no others.
pub proof fn law_span_commands(
    hits: Seq<Hit>,
    commands: Seq<ShadeCommand>,
    covered: spec_fn(Point, Scalar) -> bool,
    x: int,
    y: int,
)
    requires
        region_list::shade_hits(commands, hits, covered),
    ensures
        some_span_command(commands, x, y) <==> some_span(
            regions::regions_of(hits, hits.len() as int),
            x,
            y,
        ),
{
    let all = regions::regions_of(hits, hits.len() as int);
    if some_span_command(commands, x, y) {
        let i = choose|i: int|
            0 <= i < commands.len() && (#[trigger] commands[i] matches ShadeCommand::Span {
                x: columns,
                y: row,
            } && columns.start <= x < columns.end && row == y);
        assert(region_list::shades(commands[i], all[i], covered));
        assert(is_spanned(all[i], x, y));
    }
    if some_span(all, x, y) {
        let i = choose|i: int| 0 <= i < all.len() && is_spanned(#[trigger] all[i], x, y);
        assert(region_list::shades(commands[i], all[i], covered));
        assert(commands[i] is Span);
    }
}

/// The commands that shade boundary pixels.
pub open spec fn boundary_commands(commands: Seq<ShadeCommand>) -> Seq<ShadeCommand> {
    commands.filter(|c: ShadeCommand| c is Boundary)
}

/// Where hits and commands stand: the boundary commands name the pixels of the
/// hits, each once and in their order, and every span command comes right
/// after that of the hit it ends at.
pub proof fn law_boundary_commands(
    hits: Seq<Hit>,
    commands: Seq<ShadeCommand>,
    covered: spec_fn(Point, Scalar) -> bool,
)
    requires
        ordered::increasing(hits),
        region_list::shade_hits(commands, hits, covered),
    ensures
        boundary_commands(commands).len() == hits.len(),
        forall|i: int|
            0 <= i < hits.len() ==> {
                let c = #[trigger] boundary_commands(commands)[i];
                c is Boundary && c->Boundary_x == hits[i].x && c->Boundary_y == hits[i].y
            },
        forall|i: int|
            0 <= i < commands.len() && (#[trigger] commands[i]) is Span ==> {
                &&& i > 0
                &&& commands[i - 1] is Boundary
                &&& commands[i - 1]->Boundary_x == commands[i]->Span_x.end
                &&& commands[i - 1]->Boundary_y == commands[i]->Span_y
            },
{
    let n = hits.len() as int;
    let all = regions::regions_of(hits, n);
    let g = |r: Region| r is Boundary;
    laws::law_boundaries_are_the_hits(hits, n);
    assert(hits.take(n) =~= hits);
    lemma_filter_alike(commands, all, covered);
    assert forall|i: int| 0 <= i < hits.len() implies {
        let c = #[trigger] boundary_commands(commands)[i];
        c is Boundary && c->Boundary_x == hits[i].x && c->Boundary_y == hits[i].y
    } by {
        assert(all.filter(g)[i] == laws::boundary(hits[i]));
    }
    assert forall|i: int| 0 <= i < commands.len() && (#[trigger] commands[i]) is Span implies {
        &&& i > 0
        &&& commands[i - 1] is Boundary
        &&& commands[i - 1]->Boundary_x == commands[i]->Span_x.end
        &&& commands[i - 1]->Boundary_y == commands[i]->Span_y
    } by {
        assert(region_list::shades(commands[i], all[i], covered));
        laws::law_spans_lie_between_hits(hits, n, i);
        assert(region_list::shades(commands[i - 1], all[i - 1], covered));
    }
}

proof fn lemma_filter_alike(
    commands: Seq<ShadeCommand>,
    all: Seq<Region>,
    covered: spec_fn(Point, Scalar) -> bool,
)
    requires
        commands.len() == all.len(),
        forall|k: int|
            0 <= k < commands.len() ==> region_list::shades(
                #[trigger] commands[k],
                all[k],
                covered,
            ),
    ensures
        ({
            let (a, b) = (
                boundary_commands(commands),
                all.filter(|r: Region| r is Boundary),
            );
            &&& a.len() == b.len()
            &&& forall|i: int|
                0 <= i < a.len() ==> {
                    &&& (#[trigger] a[i]) is Boundary
                    &&& b[i] is Boundary
                    &&& a[i]->Boundary_x == b[i]->Boundary_x
                    &&& a[i]->Boundary_y == b[i]->Boundary_y
                }
        }),
    decreases commands.len(),
{
    reveal(Seq::filter);
    if commands.len() > 0 {
        let (c, r) = (commands.drop_last(), all.drop_last());
        assert forall|k: int| 0 <= k < c.len() implies region_list::shades(
            #[trigger] c[k],
            r[k],
            covered,
        ) by {
            assert(region_list::shades(commands[k], all[k], covered));
        }
        lemma_filter_alike(c, r, covered);
        let l = commands.len() - 1;
        assert(region_list::shades(commands[l], all[l], covered));
    }
}

} // verus!
