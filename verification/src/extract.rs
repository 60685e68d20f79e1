//! Stage one of the pipeline: extract a ranked list of dominant colors from
//! a buffer of converted pixels.
//!
//! The extractor first discards every pixel whose chroma falls below the
//! buffer's mean — near-neutral pixels carry little hue information and
//! would dilute the clustering. The surviving pixels are grouped into hue
//! buckets, each bucket is averaged channel-wise, and the bucket means are
//! returned most-populated bucket first.

use crate::color::{all_wf, Color, HUE_LIMIT};
use crate::settings::ParseColorsSettings;
use crate::sorting::{keyed_order, sort_keyed};
use vstd::arithmetic::div_mod::{lemma_div_is_ordered, lemma_div_multiples_vanish};
use vstd::arithmetic::mul::lemma_mul_upper_bound;
use vstd::prelude::*;

verus! {

/// Sum of the lightness channel over a sequence of colors.
pub open spec fn lightness_sum(s: Seq<Color>) -> int
    decreases s.len(),
{
    if s.len() == 0 {
        0
    } else {
        lightness_sum(s.drop_last()) + s.last().l
    }
}

/// Sum of the chroma channel over a sequence of colors.
pub open spec fn chroma_sum(s: Seq<Color>) -> int
    decreases s.len(),
{
    if s.len() == 0 {
        0
    } else {
        chroma_sum(s.drop_last()) + s.last().c
    }
}

/// Sum of the hue channel over a sequence of colors.
pub open spec fn hue_sum(s: Seq<Color>) -> int
    decreases s.len(),
{
    if s.len() == 0 {
        0
    } else {
        hue_sum(s.drop_last()) + s.last().h
    }
}

/// The mean chroma of the buffer, rounded down.
pub open spec fn mean_chroma(s: Seq<Color>) -> int
    recommends
        s.len() > 0,
{
    chroma_sum(s) / s.len() as int
}

/// The pixels whose chroma reaches `m`.
pub open spec fn at_least_chroma(m: int) -> spec_fn(Color) -> bool {
    |p: Color| p.c >= m
}

/// The vivid pixels: those at least as colorful as the buffer's average.
pub open spec fn vivid(s: Seq<Color>) -> Seq<Color> {
    s.filter(at_least_chroma(mean_chroma(s)))
}

/// The hue bucket a pixel falls into: bucket widths are `360 / seg` degrees,
/// so the index is `hue * seg / 360` (in fixed point). With `seg == 0` every
/// pixel lands in bucket zero.
pub open spec fn bucket_of(p: Color, seg: u32) -> int {
    p.h * seg / (HUE_LIMIT as int)
}

/// The distinct bucket indices of `s`, each listed at its first occurrence.
pub open spec fn bucket_keys(s: Seq<Color>, seg: u32) -> Seq<int>
    decreases s.len(),
{
    if s.len() == 0 {
        Seq::empty()
    } else {
        let prefix = bucket_keys(s.drop_last(), seg);
        if prefix.contains(bucket_of(s.last(), seg)) {
            prefix
        } else {
            prefix.push(bucket_of(s.last(), seg))
        }
    }
}

/// Membership test for one bucket.
pub open spec fn in_bucket(seg: u32, b: int) -> spec_fn(Color) -> bool {
    |p: Color| bucket_of(p, seg) == b
}

/// The pixels of `s` that fall into bucket `b`.
pub open spec fn bucket_members(s: Seq<Color>, seg: u32, b: int) -> Seq<Color> {
    s.filter(in_bucket(seg, b))
}

/// The mean color of bucket `b`: the channel-wise integer mean of its
/// members. Hue is averaged arithmetically, not circularly, so buckets that
/// straddle the 0-degree seam average toward the middle of the circle; the
/// buckets are narrow enough in practice that only the seam bucket is
/// affected.
pub open spec fn bucket_mean(s: Seq<Color>, seg: u32, b: int) -> Color {
    let ms = bucket_members(s, seg, b);
    Color {
        l: (lightness_sum(ms) / ms.len() as int) as u32,
        c: (chroma_sum(ms) / ms.len() as int) as u32,
        h: (hue_sum(ms) / ms.len() as int) as u32,
    }
}

/// The ranking key of the bucket at position `j` of the key list: buckets
/// with more pixels order first, and ties keep their first-occurrence order.
pub open spec fn rank_key(count: int, j: int) -> u64 {
    ((0xffff_ffff - count) * 0x1_0000_0000 + j) as u64
}

/// Every bucket of `s`, decorated with its ranking key.
pub open spec fn ranked_pairs(s: Seq<Color>, seg: u32) -> Seq<(u64, Color)> {
    let ks = bucket_keys(s, seg);
    Seq::new(
        ks.len(),
        |j: int|
            (
                rank_key(bucket_members(s, seg, ks[j]).len() as int, j),
                bucket_mean(s, seg, ks[j]),
            ),
    )
}

/// What the extractor returns: the bucket means of the vivid pixels, most
/// populated bucket first.
pub open spec fn extracted(pixels: Seq<Color>, seg: u32) -> Seq<Color> {
    ranked_pairs(vivid(pixels), seg).sort_by(keyed_order()).map_values(
        |pr: (u64, Color)| pr.1,
    )
}

/// The extractor's output, with the ranking keys still attached.
pub open spec fn ranked_buckets(pixels: Seq<Color>, seg: u32) -> Seq<(u64, Color)> {
    ranked_pairs(vivid(pixels), seg).sort_by(keyed_order())
}

/// How many pixels the bucket at rank `i` gathered, read back out of its
/// ranking key.
pub open spec fn rank_count(pixels: Seq<Color>, seg: u32, i: int) -> int {
    0xffff_ffff - ranked_buckets(pixels, seg)[i].0 as int / 0x1_0000_0000
}

/// The entry at rank `i` is a genuine bucket summary: for some position
/// `w` of the bucket list, it is that bucket's ranked pair, its key counts
/// that bucket's pixels, and the extracted color is that bucket's mean.
pub open spec fn rank_is_genuine(pixels: Seq<Color>, seg: u32, i: int) -> bool {
    exists|w: int|
        {
            &&& 0 <= w < bucket_keys(vivid(pixels), seg).len()
            &&& ranked_buckets(pixels, seg)[i] == #[trigger] ranked_pairs(vivid(pixels), seg)[w]
            &&& rank_count(pixels, seg, i) == bucket_members(
                vivid(pixels),
                seg,
                bucket_keys(vivid(pixels), seg)[w],
            ).len()
            &&& extracted(pixels, seg)[i] == bucket_mean(
                vivid(pixels),
                seg,
                bucket_keys(vivid(pixels), seg)[w],
            )
        }
}

/// Law: the extractor ranks by dominance. Each extracted color is the mean
/// of one genuine bucket, its rank key carries that bucket's pixel count,
/// and the counts never increase along the list — the most populated
/// bucket comes first.
pub proof fn lemma_dominance_order(pixels: Seq<Color>, seg: u32)
    requires
        pixels.len() < 0x1_0000_0000,
    ensures
        extracted(pixels, seg).len() == ranked_buckets(pixels, seg).len(),
        forall|i: int|
            0 <= i < ranked_buckets(pixels, seg).len() ==> extracted(pixels, seg)[i]
                == (#[trigger] ranked_buckets(pixels, seg)[i]).1,
        forall|i: int|
            0 <= i < ranked_buckets(pixels, seg).len() ==> #[trigger] rank_is_genuine(
                pixels,
                seg,
                i,
            ),
        forall|i: int, j: int|
            0 <= i < j < ranked_buckets(pixels, seg).len() ==> #[trigger] rank_count(
                pixels,
                seg,
                i,
            ) >= #[trigger] rank_count(pixels, seg, j),
{
    broadcast use vstd::seq_lib::group_to_multiset_ensures;

    crate::sorting::lemma_keyed_order_total();
    let s = vivid(pixels);
    let rp = ranked_pairs(s, seg);
    let srt = rp.sort_by(keyed_order());
    rp.lemma_sort_by_ensures(keyed_order());
    assert(srt.to_multiset().len() == srt.len());
    assert(rp.to_multiset().len() == rp.len());
    pixels.lemma_filter_len(at_least_chroma(mean_chroma(pixels)));
    lemma_bucket_keys_len(s, seg);
    let ks = bucket_keys(s, seg);
    assert forall|i: int| 0 <= i < srt.len() implies #[trigger] rank_is_genuine(
        pixels,
        seg,
        i,
    ) by {
        assert(srt.contains(srt[i]));
        assert(rp.contains(srt[i]));
        let w = choose|w: int| 0 <= w < rp.len() && rp[w] == srt[i];
        let cnt = bucket_members(s, seg, ks[w]).len() as int;
        assert(bucket_members(s, seg, ks[w]).len() <= s.len()) by {
            s.lemma_filter_len(in_bucket(seg, ks[w]));
        }
        assert(srt[i].0 == rank_key(cnt, w));
        assert(srt[i].0 as int == (0xffff_ffff - cnt) * 0x1_0000_0000 + w);
        vstd::arithmetic::div_mod::lemma_fundamental_div_mod_converse_div(
            srt[i].0 as int,
            0x1_0000_0000,
            0xffff_ffff - cnt,
            w,
        );
        assert(rank_count(pixels, seg, i) == cnt);
    }
    assert forall|i: int, j: int| 0 <= i < j < srt.len() implies #[trigger] rank_count(
        pixels,
        seg,
        i,
    ) >= #[trigger] rank_count(pixels, seg, j) by {
        let r = keyed_order();
        assert(vstd::relations::sorted_by(srt, r));
        assert(r(srt[i], srt[j]));
        assert(srt[i].0 <= srt[j].0);
        lemma_div_is_ordered(srt[i].0 as int, srt[j].0 as int, 0x1_0000_0000);
    }
}

/// A bucket list is never longer than the pixel list it came from.
proof fn lemma_bucket_keys_len(s: Seq<Color>, seg: u32)
    ensures
        bucket_keys(s, seg).len() <= s.len(),
    decreases s.len(),
{
    if s.len() > 0 {
        lemma_bucket_keys_len(s.drop_last(), seg);
    }
}

/// Each bucket index appears only once in the bucket list.
proof fn lemma_bucket_keys_distinct(s: Seq<Color>, seg: u32)
    ensures
        forall|a: int, b: int|
            0 <= a < b < bucket_keys(s, seg).len() ==> bucket_keys(s, seg)[a] != bucket_keys(
                s,
                seg,
            )[b],
    decreases s.len(),
{
    if s.len() > 0 {
        lemma_bucket_keys_distinct(s.drop_last(), seg);
        let prefix = bucket_keys(s.drop_last(), seg);
        let ks = bucket_keys(s, seg);
        if !prefix.contains(bucket_of(s.last(), seg)) {
            assert forall|a: int, b: int| 0 <= a < b < ks.len() implies ks[a] != ks[b] by {
                if b == ks.len() - 1 {
                    assert(prefix.contains(prefix[a]));
                }
            }
        }
    }
}

/// A bucket index that never made it into the bucket list has no members.
proof fn lemma_absent_bucket_empty(s: Seq<Color>, seg: u32, b: int)
    requires
        !bucket_keys(s, seg).contains(b),
    ensures
        bucket_members(s, seg, b).len() == 0,
    decreases s.len(),
{
    reveal(Seq::filter);
    if s.len() > 0 {
        let prefix = bucket_keys(s.drop_last(), seg);
        assert forall|j: int| 0 <= j < prefix.len() implies bucket_keys(s, seg).contains(
            prefix[j],
        ) by {
            assert(bucket_keys(s, seg)[j] == prefix[j]);
        }
        assert(!prefix.contains(b));
        lemma_absent_bucket_empty(s.drop_last(), seg, b);
        assert(bucket_of(s.last(), seg) != b) by {
            if bucket_of(s.last(), seg) == b {
                let ks = bucket_keys(s, seg);
                assert(ks[ks.len() - 1] == b);
                assert(ks.contains(b));
            }
        }
    }
}

/// How one more pixel changes a bucket's member list: it joins its own
/// bucket and leaves every other bucket alone.
proof fn lemma_members_push(s: Seq<Color>, seg: u32, b: int, p: Color)
    ensures
        bucket_of(p, seg) == b ==> bucket_members(s.push(p), seg, b) == bucket_members(
            s,
            seg,
            b,
        ).push(p),
        bucket_of(p, seg) != b ==> bucket_members(s.push(p), seg, b) == bucket_members(s, seg, b),
{
    reveal(Seq::filter);
    assert(s.push(p).drop_last() =~= s);
    assert(s.push(p).last() == p);
}

/// How one more pixel changes the bucket list: a fresh bucket index is
/// appended, a known one changes nothing.
proof fn lemma_keys_push(s: Seq<Color>, seg: u32, p: Color)
    ensures
        bucket_keys(s, seg).contains(bucket_of(p, seg)) ==> bucket_keys(s.push(p), seg)
            == bucket_keys(s, seg),
        !bucket_keys(s, seg).contains(bucket_of(p, seg)) ==> bucket_keys(s.push(p), seg)
            == bucket_keys(s, seg).push(bucket_of(p, seg)),
{
    assert(s.push(p).drop_last() =~= s);
    assert(s.push(p).last() == p);
}

/// Channel sums grow by exactly the pushed pixel's channels.
proof fn lemma_sum_push(s: Seq<Color>, p: Color)
    ensures
        lightness_sum(s.push(p)) == lightness_sum(s) + p.l,
        chroma_sum(s.push(p)) == chroma_sum(s) + p.c,
        hue_sum(s.push(p)) == hue_sum(s) + p.h,
{
    assert(s.push(p).drop_last() =~= s);
    assert(s.push(p).last() == p);
}

/// A sum bounded by `cnt` times a channel bound has a mean within that
/// bound.
proof fn lemma_mean_bound(sum: int, cnt: int, bound: int)
    requires
        1 <= cnt,
        0 <= sum <= cnt * bound,
    ensures
        0 <= sum / cnt <= bound,
{
    lemma_div_is_ordered(sum, cnt * bound, cnt);
    lemma_div_multiples_vanish(bound, cnt);
    lemma_div_is_ordered(0, sum, cnt);
}

/// One accumulated hue bucket: its index, how many pixels landed in it, and
/// the channel sums of those pixels.
#[derive(Clone, Copy)]
struct Accum {
    bucket: u64,
    count: u64,
    lsum: u64,
    csum: u64,
    hsum: u64,
}

/// The accumulator at position `j` of `groups` summarizes the bucket at
/// position `j` of `s`'s bucket list.
spec fn accum_ok(groups: Seq<Accum>, s: Seq<Color>, seg: u32, j: int) -> bool {
    let ks = bucket_keys(s, seg);
    let ms = bucket_members(s, seg, ks[j]);
    &&& groups[j].bucket as int == ks[j]
    &&& groups[j].count as int == ms.len()
    &&& groups[j].lsum as int == lightness_sum(ms)
    &&& groups[j].csum as int == chroma_sum(ms)
    &&& groups[j].hsum as int == hue_sum(ms)
    &&& 1 <= groups[j].count
    &&& groups[j].count <= s.len()
    &&& groups[j].lsum <= groups[j].count * 0xffff_ffff
    &&& groups[j].csum <= groups[j].count * 0xffff_ffff
    &&& groups[j].hsum <= groups[j].count * ((HUE_LIMIT - 1) as u64)
}

/// Extract the ranked dominant colors of a pixel buffer.
///
/// Pixels below the buffer's mean chroma are dropped; the rest are grouped
/// into hue buckets of `360 / segment_size` degrees; each populated bucket
/// is averaged channel-wise; and the means come back ordered by descending
/// pixel count, ties in order of first appearance. An empty buffer yields an
/// empty list. The result is pinned to [`extracted`], so equal inputs give
/// equal outputs.
pub fn parse_colors(pixels: &Vec<Color>, settings: &ParseColorsSettings) -> (r: Vec<Color>)
    requires
        all_wf(pixels@),
        pixels@.len() < 0x1_0000_0000,
    ensures
        r@ == extracted(pixels@, settings.segment_size),
        all_wf(r@),
        r@.len() <= pixels@.len(),
{
    broadcast use vstd::seq_lib::group_to_multiset_ensures;

    let seg = settings.segment_size;
    let n = pixels.len();
    if n == 0 {
        proof {
            reveal(Seq::filter);
            crate::sorting::lemma_keyed_order_total();
            let rp = ranked_pairs(vivid(pixels@), seg);
            assert(vivid(pixels@) =~= Seq::<Color>::empty());
            assert(rp =~= Seq::<(u64, Color)>::empty());
            rp.lemma_sort_by_ensures(keyed_order());
            let srt = rp.sort_by(keyed_order());
            assert(rp.to_multiset().len() == rp.len());
            assert(srt.to_multiset().len() == srt.len());
            assert(srt.len() == 0);
            assert(extracted(pixels@, seg) =~= Seq::<Color>::empty());
        }
        return Vec::new();
    }

    // First pass: the chroma total, for the mean-chroma cutoff.
    let mut csum: u64 = 0;
    let mut i: usize = 0;
    while i < n
        invariant
            i <= n,
            n == pixels@.len() < 0x1_0000_0000,
            csum == chroma_sum(pixels@.take(i as int)),
            csum <= (i as int) * 0xffff_ffff,
        decreases n - i,
    {
        proof {
            assert(pixels@.take(i + 1).drop_last() =~= pixels@.take(i as int));
            assert(pixels@.take(i + 1).last() == pixels@[i as int]);
        }
        csum = csum + (pixels[i].c as u64);
        i = i + 1;
    }
    proof {
        assert(pixels@.take(n as int) =~= pixels@);
    }
    let mean: u64 = csum / (n as u64);
    let ghost m = mean_chroma(pixels@);
    proof {
        assert(mean as int == m);
        lemma_mean_bound(csum as int, n as int, 0xffff_ffff);
    }

    // Second pass: keep the pixels whose chroma reaches the mean.
    let mut vv: Vec<Color> = Vec::new();
    i = 0;
    while i < n
        invariant
            i <= n,
            n == pixels@.len(),
            all_wf(pixels@),
            mean as int == m,
            vv@ == pixels@.take(i as int).filter(at_least_chroma(m)),
            vv@.len() <= i,
            all_wf(vv@),
        decreases n - i,
    {
        proof {
            reveal(Seq::filter);
            assert(pixels@.take(i + 1).drop_last() =~= pixels@.take(i as int));
            assert(pixels@.take(i + 1).last() == pixels@[i as int]);
        }
        let p = pixels[i];
        if (p.c as u64) >= mean {
            vv.push(p);
        }
        i = i + 1;
    }
    proof {
        assert(pixels@.take(n as int) =~= pixels@);
        assert(vv@ == vivid(pixels@));
    }

    // Third pass: group the vivid pixels into hue buckets, keeping a count
    // and channel sums per bucket, in order of first appearance.
    let ghost fseq = vv@;
    let vn = vv.len();
    let mut groups: Vec<Accum> = Vec::new();
    i = 0;
    while i < vn
        invariant
            i <= vn,
            vn == fseq.len(),
            vv@ == fseq,
            fseq.len() <= pixels@.len() < 0x1_0000_0000,
            all_wf(fseq),
            groups@.len() == bucket_keys(fseq.take(i as int), seg).len(),
            forall|j: int|
                0 <= j < groups@.len() ==> #[trigger] accum_ok(
                    groups@,
                    fseq.take(i as int),
                    seg,
                    j,
                ),
        decreases vn - i,
    {
        let ghost prefix = fseq.take(i as int);
        let ghost ks = bucket_keys(prefix, seg);
        let ghost g0 = groups@;
        let p = vv[i];
        proof {
            assert(p.wf());
            lemma_mul_upper_bound(p.h as int, (HUE_LIMIT - 1) as int, seg as int, 0xffff_ffff);
        }
        let b: u64 = (p.h as u64) * (seg as u64) / (HUE_LIMIT as u64);
        proof {
            assert(b as int == bucket_of(p, seg));
            assert(fseq.take(i + 1) =~= prefix.push(p));
            lemma_keys_push(prefix, seg, p);
            lemma_bucket_keys_distinct(prefix, seg);
        }
        let mut k: usize = 0;
        while k < groups.len() && groups[k].bucket != b
            invariant
                k <= groups@.len(),
                forall|t: int| 0 <= t < k ==> #[trigger] groups@[t].bucket != b,
            decreases groups@.len() - k,
        {
            k = k + 1;
        }
        if k < groups.len() {
            // The pixel's bucket is already accumulated at position `k`.
            proof {
                assert(accum_ok(groups@, prefix, seg, k as int));
                assert(ks.contains(b as int)) by {
                    assert(ks[k as int] == b as int);
                }
                assert(bucket_keys(fseq.take(i + 1), seg) == ks);
            }
            let mut a = groups[k];
            proof {
                let ms = bucket_members(prefix, seg, ks[k as int]);
                lemma_members_push(prefix, seg, ks[k as int], p);
                lemma_sum_push(ms, p);
            }
            a.count = a.count + 1;
            a.lsum = a.lsum + (p.l as u64);
            a.csum = a.csum + (p.c as u64);
            a.hsum = a.hsum + (p.h as u64);
            groups.set(k, a);
            proof {
                assert forall|j: int| 0 <= j < groups@.len() implies #[trigger] accum_ok(
                    groups@,
                    fseq.take(i + 1),
                    seg,
                    j,
                ) by {
                    assert(accum_ok(g0, prefix, seg, j));
                    if j == k {
                        lemma_members_push(prefix, seg, ks[j], p);
                        lemma_sum_push(bucket_members(prefix, seg, ks[j]), p);
                    } else {
                        assert(ks[j] != b as int);
                        lemma_members_push(prefix, seg, ks[j], p);
                        assert(groups@[j] == g0[j]);
                    }
                }
            }
        } else {
            // A bucket seen for the first time starts a fresh accumulator.
            proof {
                assert(!ks.contains(b as int)) by {
                    if ks.contains(b as int) {
                        let j = choose|j: int| 0 <= j < ks.len() && ks[j] == b as int;
                        assert(accum_ok(g0, prefix, seg, j));
                        assert(g0[j].bucket == b);
                    }
                }
                assert(bucket_keys(fseq.take(i + 1), seg) == ks.push(b as int));
                lemma_absent_bucket_empty(prefix, seg, b as int);
            }
            groups.push(
                Accum {
                    bucket: b,
                    count: 1,
                    lsum: p.l as u64,
                    csum: p.c as u64,
                    hsum: p.h as u64,
                },
            );
            proof {
                let nks = ks.push(b as int);
                assert forall|j: int| 0 <= j < groups@.len() implies #[trigger] accum_ok(
                    groups@,
                    fseq.take(i + 1),
                    seg,
                    j,
                ) by {
                    lemma_members_push(prefix, seg, nks[j], p);
                    if j < nks.len() - 1 {
                        assert(accum_ok(g0, prefix, seg, j));
                        assert(groups@[j] == g0[j]);
                        assert(ks[j] != b as int) by {
                            if ks[j] == b as int {
                                assert(ks.contains(b as int));
                            }
                        }
                    } else {
                        let ms = bucket_members(prefix, seg, b as int);
                        assert(ms.len() == 0);
                        assert(ms =~= Seq::<Color>::empty());
                        assert(bucket_members(prefix.push(p), seg, b as int) == ms.push(p));
                        lemma_sum_push(ms, p);
                    }
                }
            }
        }
        i = i + 1;
    }
    proof {
        assert(fseq.take(vn as int) =~= fseq);
        lemma_bucket_keys_len(fseq, seg);
    }

    // Fourth pass: one ranked pair per bucket, carrying the bucket's mean
    // color and its ordering key.
    let ghost rp = ranked_pairs(fseq, seg);
    let gn = groups.len();
    let mut pairs: Vec<(u64, Color)> = Vec::new();
    let mut j: usize = 0;
    while j < gn
        invariant
            j <= gn,
            gn == groups@.len(),
            gn == bucket_keys(fseq, seg).len(),
            gn <= fseq.len() < 0x1_0000_0000,
            forall|t: int| 0 <= t < gn ==> #[trigger] accum_ok(groups@, fseq, seg, t),
            rp == ranked_pairs(fseq, seg),
            pairs@ == rp.take(j as int),
            forall|t: int| 0 <= t < pairs@.len() ==> (#[trigger] pairs@[t].1).wf(),
        decreases gn - j,
    {
        proof {
            assert(accum_ok(groups@, fseq, seg, j as int));
        }
        let a = groups[j];
        proof {
            lemma_mean_bound(a.lsum as int, a.count as int, 0xffff_ffff);
            lemma_mean_bound(a.csum as int, a.count as int, 0xffff_ffff);
            lemma_mean_bound(a.hsum as int, a.count as int, (HUE_LIMIT - 1) as int);
        }
        let mean_color = Color {
            l: (a.lsum / a.count) as u32,
            c: (a.csum / a.count) as u32,
            h: (a.hsum / a.count) as u32,
        };
        let key: u64 = (0xffff_ffffu64 - a.count) * 0x1_0000_0000u64 + (j as u64);
        pairs.push((key, mean_color));
        proof {
            let ks = bucket_keys(fseq, seg);
            assert(mean_color == bucket_mean(fseq, seg, ks[j as int]));
            assert(key as int == rank_key(
                bucket_members(fseq, seg, ks[j as int]).len() as int,
                j as int,
            ));
            assert(pairs@ =~= rp.take(j + 1));
        }
        j = j + 1;
    }
    proof {
        assert(rp.take(gn as int) =~= rp);
    }

    // Rank the buckets and strip the keys.
    let ghost pseq = pairs@;
    let sorted = sort_keyed(pairs);
    let mut out: Vec<Color> = Vec::new();
    let ghost sseq = sorted@;
    proof {
        assert forall|u: int| 0 <= u < sseq.len() implies (#[trigger] sseq[u].1).wf() by {
            assert(sseq.contains(sseq[u]));
            assert(pseq.contains(sseq[u]));
            let w = choose|w: int| 0 <= w < pseq.len() && pseq[w] == sseq[u];
            assert(pseq[w].1.wf());
        }
    }
    let sn = sorted.len();
    let mut t: usize = 0;
    while t < sn
        invariant
            t <= sn,
            sn == sseq.len(),
            sorted@ == sseq,
            out@ == sseq.take(t as int).map_values(|pr: (u64, Color)| pr.1),
            forall|u: int| 0 <= u < sseq.len() ==> (#[trigger] sseq[u].1).wf(),
        decreases sn - t,
    {
        out.push(sorted[t].1);
        proof {
            assert(out@ =~= sseq.take(t + 1).map_values(|pr: (u64, Color)| pr.1));
        }
        t = t + 1;
    }
    proof {
        assert(sseq.take(sn as int) =~= sseq);
        assert(out@ == extracted(pixels@, seg));
        assert forall|u: int| 0 <= u < out@.len() implies (#[trigger] out@[u]).wf() by {
            assert(out@[u] == sseq[u].1);
        }
    }
    out
}

} // verus!
