//! Stage two of the pipeline: compose the 24-slot Base24 scheme from the
//! ranked dominant colors.
//!
//! Every slot is pinned down exactly. Slots 0..8 hold a neutral ramp of
//! eight lightness steps tinted with the most dominant hue; slots 8..16 hold
//! the eight highlight colors, chosen by chroma and ordered by hue; slots 16
//! and 17 hold the background pair; slots 18..24 hold the six bright
//! highlight variants.

use crate::color::{all_wf, Color};
use crate::settings::{PaletteSettings, PaletteStyle};
use crate::sorting::{keyed_le, keyed_order, sort_keyed};
use vstd::arithmetic::div_mod::{
    lemma_add_mod_noop_right, lemma_mod_multiples_vanish, lemma_small_mod,
};
use vstd::prelude::*;

verus! {

/// The one failure of the composer: assembly did not produce 24 slots. With
/// the fixed slot counts this can only happen when `keep` admits fewer than
/// eight highlight candidates.
#[derive(Clone, Copy, Debug, PartialEq, Eq, Structural)]
pub enum PaletteError {
    InsufficientColors,
}

/// A finished scheme, ready for the caller to serialize: three labels and
/// the palette itself.
pub struct Base24Style {
    pub name: String,
    pub author: String,
    pub variant: String,
    pub palette: Vec<Color>,
}

impl Base24Style {
    /// A style is well formed when its palette fills all 24 slots.
    pub open spec fn wf(self) -> bool {
        self.palette@.len() == 24
    }
}

/// The input list, cyclically padded from its own front until at least
/// eight colors are there.
pub open spec fn padded(cs: Seq<Color>) -> Seq<Color>
    recommends
        cs.len() >= 1,
{
    if cs.len() >= 8 {
        cs
    } else {
        Seq::new(8, |i: int| cs[i % cs.len() as int])
    }
}

/// How many of the padded colors take part in highlight selection.
pub open spec fn keep_count(settings: PaletteSettings, plen: int) -> int {
    match settings.keep {
        Some(k) => if k as int <= plen {
            k as int
        } else {
            plen
        },
        None => plen,
    }
}

/// At most the `n` leading elements of `s`.
pub open spec fn take_up_to(s: Seq<Color>, n: int) -> Seq<Color> {
    if s.len() <= n {
        s
    } else {
        s.take(n)
    }
}

/// The colors competing for highlight slots.
pub open spec fn kept(cs: Seq<Color>, settings: PaletteSettings) -> Seq<Color> {
    padded(cs).take(keep_count(settings, padded(cs).len() as int))
}

/// Ranking key of the chroma sort: more chroma orders first, ties keep
/// their order.
pub open spec fn chroma_key(c: u32, j: int) -> u64 {
    ((0xffff_ffff - c) * 0x1_0000_0000 + j) as u64
}

/// The kept colors decorated for the chroma sort.
pub open spec fn chroma_pairs(s: Seq<Color>) -> Seq<(u64, Color)> {
    Seq::new(s.len(), |j: int| (chroma_key(s[j].c, j), s[j]))
}

/// The (up to) eight most saturated of the kept colors, most saturated
/// first.
pub open spec fn top_by_chroma(cs: Seq<Color>, settings: PaletteSettings) -> Seq<Color> {
    take_up_to(
        chroma_pairs(kept(cs, settings)).sort_by(keyed_order()).map_values(
            |pr: (u64, Color)| pr.1,
        ),
        8,
    )
}

/// Ranking key of the hue sort: ascending whole degrees, ties keep their
/// order.
pub open spec fn hue_key(h: u32, j: int) -> u64 {
    ((h / 1000) * 0x1_0000_0000 + j) as u64
}

/// The chosen colors decorated for the hue sort.
pub open spec fn hue_pairs(s: Seq<Color>) -> Seq<(u64, Color)> {
    Seq::new(s.len(), |j: int| (hue_key(s[j].h, j), s[j]))
}

/// The highlight hues in canonical order: sorted by whole hue degree,
/// before the rotation offset is applied.
pub open spec fn sorted_hues(cs: Seq<Color>, settings: PaletteSettings) -> Seq<u32> {
    hue_pairs(top_by_chroma(cs, settings)).sort_by(keyed_order()).map_values(
        |pr: (u64, Color)| pr.1.h,
    )
}

/// The hue of highlight slot `i`: the rotation offset cyclically shifts the
/// sorted hues across the eight slots.
pub open spec fn slot_hue(cs: Seq<Color>, settings: PaletteSettings, i: int) -> u32 {
    sorted_hues(cs, settings)[(i + settings.rotation as int) % 8]
}

/// Highlight slot `i`: the slot's hue at the highlight tuning values.
pub open spec fn highlight_color(cs: Seq<Color>, settings: PaletteSettings, i: int) -> Color {
    Color { l: settings.hl_lightness, c: settings.hl_chroma, h: slot_hue(cs, settings, i) }
}

/// Highlight `i` of the canonical order: the `i`th *sorted* hue at the
/// highlight tuning values, before the rotation offset is applied. The
/// rotation decides which slot shows a highlight, not which highlights
/// exist, so the bright variants descend from this order.
pub open spec fn canonical_highlight(cs: Seq<Color>, settings: PaletteSettings, i: int) -> Color {
    Color { l: settings.hl_lightness, c: settings.hl_chroma, h: sorted_hues(cs, settings)[i] }
}

/// Base-ramp slot `i`: eight lightness steps of an eighth of a unit each,
/// tinted with the base chroma and hue. The dark style ascends from dim to
/// bright; the light style runs the same steps in reverse.
pub open spec fn ramp_color(settings: PaletteSettings, base_hue: u32, i: int) -> Color {
    let step = if settings.style == PaletteStyle::Dark {
        i + 1
    } else {
        8 - i
    };
    Color { l: (step * 125) as u32, c: settings.base_chroma, h: base_hue }
}

/// The two background slots: near black for the dark style, near white for
/// the light style, both tinted like the ramp.
pub open spec fn background_color(settings: PaletteSettings, base_hue: u32, i: int) -> Color {
    let level = if settings.style == PaletteStyle::Dark {
        if i == 0 {
            50int
        } else {
            0int
        }
    } else {
        if i == 0 {
            850int
        } else {
            900int
        }
    };
    Color { l: level as u32, c: settings.base_chroma, h: base_hue }
}

/// Which canonical (pre-rotation) highlight the bright slot `j` descends
/// from. Highlights 2 and 7 of the sorted order have no bright
/// counterpart: 2 matches no terminal color and 7 is kept only for
/// backward compatibility, so the six bright slots descend from canonical
/// highlights 0, 1, 3, 4, 5 and 6 in order.
pub open spec fn bright_source(j: int) -> int {
    if j < 2 {
        j
    } else {
        j + 1
    }
}

/// A bright variant: lightness and chroma scaled by six fifths, the hue
/// kept.
pub open spec fn brightened(c: Color) -> Color {
    Color { l: (c.l * 12 / 10) as u32, c: (c.c * 12 / 10) as u32, h: c.h }
}

/// The full scheme: eight ramp slots, eight highlights, two backgrounds,
/// six bright highlights — 24 colors in fixed canonical order.
pub open spec fn compose_spec(cs: Seq<Color>, settings: PaletteSettings) -> Seq<Color> {
    Seq::new(
        24,
        |i: int|
            if i < 8 {
                ramp_color(settings, cs[0].h, i)
            } else if i < 16 {
                highlight_color(cs, settings, i - 8)
            } else if i < 18 {
                background_color(settings, cs[0].h, i - 16)
            } else {
                brightened(canonical_highlight(cs, settings, bright_source(i - 18)))
            },
    )
}

/// Law: padding never shortens the list, pads a short list to exactly
/// eight, leaves a long list alone, and invents nothing — every padded
/// entry is one of the original colors, cycled from the front.
pub proof fn lemma_padding(cs: Seq<Color>)
    requires
        cs.len() >= 1,
    ensures
        padded(cs).len() >= 8,
        cs.len() >= 8 ==> padded(cs) == cs,
        cs.len() < 8 ==> padded(cs).len() == 8,
        forall|i: int| 0 <= i < padded(cs).len() ==> padded(cs)[i] == cs[i % cs.len() as int],
        forall|i: int| 0 <= i < padded(cs).len() ==> cs.contains(#[trigger] padded(cs)[i]),
{
    assert forall|i: int| 0 <= i < padded(cs).len() implies padded(cs)[i] == cs[i % cs.len() as int]
        && cs.contains(#[trigger] padded(cs)[i]) by {
        vstd::arithmetic::div_mod::lemma_mod_bound(i, cs.len() as int);
        if cs.len() >= 8 {
            lemma_small_mod(i as nat, cs.len());
        }
        assert(cs[i % cs.len() as int] == padded(cs)[i]);
    }
}

/// Law: before the rotation offset is applied the highlight hues are
/// canonically ordered — each slot's whole-degree hue is at most the next
/// slot's — and highlight slot `i` of the finished palette carries the
/// sorted hue at cyclic offset `(i + rotation) % 8`. With a rotation of
/// zero the slots show the sorted hues unshifted.
pub proof fn lemma_highlight_hue_order(cs: Seq<Color>, settings: PaletteSettings)
    ensures
        forall|i: int, j: int|
            0 <= i < j < sorted_hues(cs, settings).len() ==> #[trigger] (sorted_hues(
                cs,
                settings,
            )[i] / 1000) <= #[trigger] (sorted_hues(cs, settings)[j] / 1000),
        forall|i: int|
            0 <= i < 8 ==> #[trigger] compose_spec(cs, settings)[8 + i].h == sorted_hues(
                cs,
                settings,
            )[(i + settings.rotation as int) % 8],
{
    broadcast use vstd::seq_lib::group_to_multiset_ensures;

    crate::sorting::lemma_keyed_order_total();
    let pairs = hue_pairs(top_by_chroma(cs, settings));
    let srt = pairs.sort_by(keyed_order());
    pairs.lemma_sort_by_ensures(keyed_order());
    let hs = sorted_hues(cs, settings);
    assert forall|i: int, j: int| 0 <= i < j < hs.len() implies #[trigger] (hs[i] / 1000)
        <= #[trigger] (hs[j] / 1000) by {
        assert(vstd::relations::sorted_by(srt, keyed_order()));
        let r = keyed_order();
        assert(r(srt[i], srt[j]));
        assert(keyed_le(srt[i], srt[j]));
        assert(srt.contains(srt[i]));
        assert(pairs.contains(srt[i]));
        assert(srt.contains(srt[j]));
        assert(pairs.contains(srt[j]));
        let wi = choose|w: int| 0 <= w < pairs.len() && pairs[w] == srt[i];
        let wj = choose|w: int| 0 <= w < pairs.len() && pairs[w] == srt[j];
        assert(srt[i].0 == hue_key(srt[i].1.h, wi));
        assert(srt[j].0 == hue_key(srt[j].1.h, wj));
        assert(srt[i].1.h / 1000 <= 0xffff_ffff);
        assert(wi < 0x1_0000_0000 && wj < 0x1_0000_0000) by {
            assert(pairs.len() <= top_by_chroma(cs, settings).len());
        }
        assert(hs[i] == srt[i].1.h && hs[j] == srt[j].1.h);
        assert(srt[i].0 as int == (srt[i].1.h / 1000) * 0x1_0000_0000 + wi);
        assert(srt[j].0 as int == (srt[j].1.h / 1000) * 0x1_0000_0000 + wj);
        assert(srt[i].0 <= srt[j].0);
    }
}

/// Law: the six bright slots descend from the canonical highlights — the
/// hue-sorted order *before* the rotation offset is applied — taking
/// sources 0, 1, 3, 4, 5 and 6 in order and never 2 or 7. Each bright slot
/// scales its source's lightness and chroma by six fifths and keeps its
/// hue, so the rotation remaps the normal highlight slots without changing
/// which hues receive bright variants.
pub proof fn lemma_bright_highlights(cs: Seq<Color>, settings: PaletteSettings)
    requires
        settings.hl_lightness * 12 <= 0xffff_ffff * 10,
        settings.hl_chroma * 12 <= 0xffff_ffff * 10,
    ensures
        forall|j: int|
            0 <= j < 6 ==> #[trigger] bright_source(j) != 2 && bright_source(j) != 7,
        forall|j: int|
            0 <= j < 6 ==> #[trigger] compose_spec(cs, settings)[18 + j] == brightened(
                canonical_highlight(cs, settings, bright_source(j)),
            ),
        forall|j: int|
            0 <= j < 6 ==> #[trigger] compose_spec(cs, settings)[18 + j].l
                == canonical_highlight(cs, settings, bright_source(j)).l * 12 / 10,
        forall|j: int|
            0 <= j < 6 ==> #[trigger] compose_spec(cs, settings)[18 + j].c
                == canonical_highlight(cs, settings, bright_source(j)).c * 12 / 10,
        forall|j: int|
            0 <= j < 6 ==> #[trigger] compose_spec(cs, settings)[18 + j].h == sorted_hues(
                cs,
                settings,
            )[bright_source(j)],
{
}

/// Law: the two styles are mirror images. For any two settings that differ
/// only in style, the light style's base ramp runs the dark style's
/// lightness steps backwards, and the background pair trades its near-black
/// levels for near-white ones.
pub proof fn lemma_style_symmetry(cs: Seq<Color>, dark: PaletteSettings, light: PaletteSettings)
    requires
        dark.style == PaletteStyle::Dark,
        light.style == PaletteStyle::Light,
    ensures
        forall|i: int|
            0 <= i < 8 ==> #[trigger] compose_spec(cs, dark)[i].l == compose_spec(cs, light)[7
                - i].l,
        compose_spec(cs, dark)[16].l == 50 && compose_spec(cs, dark)[17].l == 0,
        compose_spec(cs, light)[16].l == 850 && compose_spec(cs, light)[17].l == 900,
{
}

/// How many bright slots the first `i` highlight slots have produced.
spec fn bright_count(i: int) -> int {
    if i <= 2 {
        i
    } else if i <= 7 {
        i - 1
    } else {
        i - 2
    }
}

/// Compose the palette for a ranked, non-empty list of dominant colors.
///
/// The list is padded to at least eight colors by cycling through its own
/// front; the first `keep` of those compete for the eight highlight slots by
/// chroma; the winners are ordered by hue and shifted by `rotation` across
/// the highlight slots, while the bright slots descend from the unshifted
/// sorted order. The result either fills all 24 slots exactly as
/// [`compose_spec`] lays them out, or — exactly when `keep` admits fewer
/// than eight candidates — fails with
/// [`PaletteError::InsufficientColors`].
pub fn generate_palette(colors: Vec<Color>, settings: &PaletteSettings) -> (r: Result<
    Vec<Color>,
    PaletteError,
>)
    requires
        colors@.len() >= 1,
        colors@.len() < 0x1_0000_0000,
        all_wf(colors@),
        settings.hl_lightness * 12 <= 0xffff_ffff * 10,
        settings.hl_chroma * 12 <= 0xffff_ffff * 10,
    ensures
        r matches Ok(p) ==> (p@ == compose_spec(colors@, *settings) && p@.len() == 24 && all_wf(
            p@,
        )),
        (r is Err) <==> (settings.keep matches Some(k) && k < 8),
        r matches Err(e) ==> e == PaletteError::InsufficientColors,
{
    let ghost orig = colors@;
    let base_hue = colors[0].h;
    let mut cs = colors;
    proof {
        assert forall|j: int| 0 <= j < orig.len() implies #[trigger] (j % orig.len() as int)
            == j by {
            lemma_small_mod(j as nat, orig.len());
        }
    }

    // Pad the list from its own front until eight colors are there.
    let mut i: usize = 0;
    while cs.len() < 8
        invariant
            1 <= orig.len() < 0x1_0000_0000,
            all_wf(orig),
            cs@.len() == orig.len() + i,
            orig.len() >= 8 ==> i == 0,
            orig.len() < 8 ==> cs@.len() <= 8,
            forall|j: int| 0 <= j < cs@.len() ==> cs@[j] == orig[j % orig.len() as int],
        decreases 8 - cs@.len(),
    {
        let x = cs[i];
        cs.push(x);
        proof {
            lemma_mod_multiples_vanish(1, i as int, orig.len() as int);
            assert((orig.len() + i) % orig.len() as int == i as int % orig.len() as int);
        }
        i = i + 1;
    }
    let ghost pad = padded(orig);
    proof {
        assert forall|j: int| 0 <= j < cs@.len() implies cs@[j] == pad[j] by {
            if orig.len() >= 8 {
                lemma_small_mod(j as nat, orig.len());
            }
        }
        assert(cs@ =~= pad);
        assert(pad.len() < 0x1_0000_0001);
    }

    // Only the first `keep` colors compete for the highlight slots.
    let keep_n: usize = match settings.keep {
        Some(k) => if k < cs.len() {
            k
        } else {
            cs.len()
        },
        None => cs.len(),
    };
    cs.truncate(keep_n);
    let ghost kseq = kept(orig, *settings);
    proof {
        assert(keep_n as int == keep_count(*settings, pad.len() as int));
        assert(cs@ =~= kseq);
    }

    // Decorate the candidates for the chroma ranking.
    let kn = cs.len();
    let mut cp: Vec<(u64, Color)> = Vec::new();
    let mut j: usize = 0;
    while j < kn
        invariant
            j <= kn,
            kn == kseq.len() < 0x1_0000_0000,
            cs@ == kseq,
            all_wf(kseq),
            cp@ == chroma_pairs(kseq).take(j as int),
        decreases kn - j,
    {
        let c = cs[j];
        let key: u64 = (0xffff_ffffu64 - (c.c as u64)) * 0x1_0000_0000u64 + (j as u64);
        cp.push((key, c));
        proof {
            assert(cp@ =~= chroma_pairs(kseq).take(j + 1));
        }
        j = j + 1;
    }
    proof {
        assert(chroma_pairs(kseq).take(kn as int) =~= chroma_pairs(kseq));
    }

    // Rank by chroma and keep the eight most saturated.
    let ghost cpseq = cp@;
    let cps = sort_keyed(cp);
    proof {
        assert forall|u: int| 0 <= u < cps@.len() implies (#[trigger] cps@[u].1).wf() by {
            assert(cps@.contains(cps@[u]));
            assert(cpseq.contains(cps@[u]));
            let w = choose|w: int| 0 <= w < cpseq.len() && cpseq[w] == cps@[u];
            assert(cpseq[w].1 == kseq[w]);
        }
    }
    let m: usize = if cps.len() < 8 {
        cps.len()
    } else {
        8
    };
    let ghost top = top_by_chroma(orig, *settings);
    let mut hsrc: Vec<Color> = Vec::new();
    let mut t: usize = 0;
    while t < m
        invariant
            t <= m <= cps@.len(),
            hsrc@ == cps@.map_values(|pr: (u64, Color)| pr.1).take(t as int),
            forall|u: int| 0 <= u < cps@.len() ==> (#[trigger] cps@[u].1).wf(),
        decreases m - t,
    {
        hsrc.push(cps[t].1);
        proof {
            assert(hsrc@ =~= cps@.map_values(|pr: (u64, Color)| pr.1).take(t + 1));
        }
        t = t + 1;
    }
    proof {
        assert(hsrc@ =~= top);
        assert(all_wf(hsrc@));
    }

    // Decorate the winners for the hue ordering.
    let hn = hsrc.len();
    let mut hp: Vec<(u64, Color)> = Vec::new();
    t = 0;
    while t < hn
        invariant
            t <= hn,
            hn == hsrc@.len() <= 8,
            hsrc@ == top,
            all_wf(top),
            hp@ == hue_pairs(top).take(t as int),
        decreases hn - t,
    {
        let c = hsrc[t];
        let key: u64 = ((c.h / 1000) as u64) * 0x1_0000_0000u64 + (t as u64);
        hp.push((key, c));
        proof {
            assert(hp@ =~= hue_pairs(top).take(t + 1));
        }
        t = t + 1;
    }
    proof {
        assert(hue_pairs(top).take(hn as int) =~= hue_pairs(top));
    }

    // Order the hues and read them off.
    let ghost hpseq = hp@;
    let hps = sort_keyed(hp);
    proof {
        assert forall|u: int| 0 <= u < hps@.len() implies (#[trigger] hps@[u].1).wf() by {
            assert(hps@.contains(hps@[u]));
            assert(hpseq.contains(hps@[u]));
            let w = choose|w: int| 0 <= w < hpseq.len() && hpseq[w] == hps@[u];
            assert(hpseq[w].1 == top[w]);
        }
    }
    let ghost shues = sorted_hues(orig, *settings);
    let mut hues: Vec<u32> = Vec::new();
    let hm = hps.len();
    t = 0;
    while t < hm
        invariant
            t <= hm,
            hm == hps@.len(),
            hues@ == hps@.map_values(|pr: (u64, Color)| pr.1.h).take(t as int),
            forall|u: int| 0 <= u < hps@.len() ==> (#[trigger] hps@[u].1).wf(),
            forall|u: int| 0 <= u < hues@.len() ==> #[trigger] hues@[u] < crate::color::HUE_LIMIT,
        decreases hm - t,
    {
        hues.push(hps[t].1.h);
        proof {
            assert(hues@ =~= hps@.map_values(|pr: (u64, Color)| pr.1.h).take(t + 1));
        }
        t = t + 1;
    }
    proof {
        assert(hues@ =~= shues);
    }

    // Place the highlight colors, shifted by the rotation offset.
    let ghost hlspec = Seq::new(8, |i: int| highlight_color(orig, *settings, i));
    let mut hl: Vec<Color> = Vec::new();
    if hues.len() == 8 {
        let rot: usize = settings.rotation % 8;
        let mut i: usize = 0;
        while i < 8
            invariant
                i <= 8,
                hues@ == shues,
                shues == sorted_hues(orig, *settings),
                shues.len() == 8,
                rot == settings.rotation % 8,
                forall|u: int| 0 <= u < hues@.len() ==> #[trigger] hues@[u]
                    < crate::color::HUE_LIMIT,
                hlspec == Seq::new(8, |i: int| highlight_color(orig, *settings, i)),
                hl@ == hlspec.take(i as int),
            decreases 8 - i,
        {
            let idx = (i + rot) % 8;
            proof {
                lemma_add_mod_noop_right(i as int, settings.rotation as int, 8);
                assert((i + settings.rotation % 8) % 8 == (i + settings.rotation) % 8);
                assert(slot_hue(orig, *settings, i as int) == shues[idx as int]);
            }
            hl.push(
                Color { l: settings.hl_lightness, c: settings.hl_chroma, h: hues[idx] },
            );
            proof {
                assert(hl@ =~= hlspec.take(i + 1));
            }
            i = i + 1;
        }
        proof {
            assert(hl@ =~= hlspec);
        }
    } else {
        // Too few candidates: carry them through so that assembly comes up
        // short and reports the failure.
        let mut i: usize = 0;
        while i < hues.len()
            invariant
                i <= hues@.len() <= 8,
                hl@.len() == i,
            decreases hues@.len() - i,
        {
            hl.push(
                Color { l: settings.hl_lightness, c: settings.hl_chroma, h: hues[i] },
            );
            i = i + 1;
        }
    }

    // Derive the bright variants from the canonical hue order — the sorted
    // hues before the rotation offset. Sorted highlights 2 and 7 have no
    // bright counterpart, and rotation remaps slots without changing which
    // hues are brightened.
    let mut br: Vec<Color> = Vec::new();
    let mut i: usize = 0;
    while i < hm
        invariant
            i <= hm,
            hm == hues@.len() <= 8,
            hues@ == shues,
            settings.hl_lightness * 12 <= 0xffff_ffff * 10,
            settings.hl_chroma * 12 <= 0xffff_ffff * 10,
            br@.len() == bright_count(i as int),
            forall|u: int| 0 <= u < br@.len() ==> br@[u] == brightened(
                Color {
                    l: settings.hl_lightness,
                    c: settings.hl_chroma,
                    h: shues[bright_source(u)],
                },
            ),
        decreases hm - i,
    {
        if i != 2 && i != 7 {
            let bl: u64 = (settings.hl_lightness as u64) * 12 / 10;
            let bc: u64 = (settings.hl_chroma as u64) * 12 / 10;
            br.push(Color { l: bl as u32, c: bc as u32, h: hues[i] });
            proof {
                assert(bright_source(bright_count(i as int)) == i as int);
            }
        }
        i = i + 1;
    }

    // Assemble the four sections in canonical order.
    let mut all: Vec<Color> = Vec::new();
    i = 0;
    while i < 8
        invariant
            i <= 8,
            all@.len() == i,
            forall|u: int| 0 <= u < all@.len() ==> all@[u] == ramp_color(
                *settings,
                base_hue,
                u,
            ),
        decreases 8 - i,
    {
        let step: u32 = match settings.style {
            PaletteStyle::Dark => (i as u32) + 1,
            PaletteStyle::Light => 8 - (i as u32),
        };
        all.push(Color { l: step * 125, c: settings.base_chroma, h: base_hue });
        i = i + 1;
    }
    let ghost ramp_seq = all@;
    let ghost hl_seq = hl@;
    all.append(&mut hl);
    match settings.style {
        PaletteStyle::Dark => {
            all.push(Color { l: 50, c: settings.base_chroma, h: base_hue });
            all.push(Color { l: 0, c: settings.base_chroma, h: base_hue });
        },
        PaletteStyle::Light => {
            all.push(Color { l: 850, c: settings.base_chroma, h: base_hue });
            all.push(Color { l: 900, c: settings.base_chroma, h: base_hue });
        },
    }
    let ghost bg_seq = Seq::new(2, |u: int| background_color(*settings, base_hue, u));
    let ghost br_seq = br@;
    all.append(&mut br);
    proof {
        assert(all@ =~= ramp_seq + hl_seq + bg_seq + br_seq);
    }

    // Exactly 24 colors must have come out; draw them or fail.
    match crate::color::color_array(&all, 24) {
        Some(p) => {
            proof {
                assert(hl_seq.len() == 8);
                assert(p@ =~= all@);
                assert forall|u: int| 0 <= u < 24 implies p@[u] == compose_spec(
                    orig,
                    *settings,
                )[u] by {
                    if u < 8 {
                        assert(p@[u] == ramp_seq[u]);
                    } else if u < 16 {
                        assert(p@[u] == hl_seq[u - 8]);
                        assert(hl_seq[u - 8] == highlight_color(orig, *settings, u - 8));
                    } else if u < 18 {
                        assert(p@[u] == bg_seq[u - 16]);
                    } else {
                        assert(p@[u] == br_seq[u - 18]);
                        assert(br_seq[u - 18] == brightened(
                            Color {
                                l: settings.hl_lightness,
                                c: settings.hl_chroma,
                                h: shues[bright_source(u - 18)],
                            },
                        ));
                    }
                }
                assert(p@ =~= compose_spec(orig, *settings));
                assert forall|u: int| 0 <= u < p@.len() implies (#[trigger] p@[u]).wf() by {
                    assert(p@[u] == compose_spec(orig, *settings)[u]);
                    assert(orig[0].wf());
                    if 8 <= u < 16 {
                        let idx = (u - 8 + settings.rotation as int) % 8;
                        assert(0 <= idx < 8);
                        assert(hues@[idx] < crate::color::HUE_LIMIT);
                    } else if u >= 18 {
                        let idx = bright_source(u - 18);
                        assert(0 <= idx < 8);
                        assert(hues@[idx] < crate::color::HUE_LIMIT);
                    }
                }
            }
            Ok(p)
        },
        None => {
            proof {
                assert(all@.len() < 24);
                assert(hl_seq.len() < 8);
                assert(kn < 8);
            }
            Err(PaletteError::InsufficientColors)
        },
    }
}

/// Compose a palette and wrap it as a preview scheme: a placeholder name
/// and author, the style's name as the variant, and the full 24 slots.
/// Fails exactly when [`generate_palette`] does.
pub fn style_from_colors(colors: Vec<Color>, settings: &PaletteSettings) -> (r: Result<
    Base24Style,
    PaletteError,
>)
    requires
        colors@.len() >= 1,
        colors@.len() < 0x1_0000_0000,
        all_wf(colors@),
        settings.hl_lightness * 12 <= 0xffff_ffff * 10,
        settings.hl_chroma * 12 <= 0xffff_ffff * 10,
    ensures
        r matches Ok(s) ==> (s.wf() && s.palette@ == compose_spec(colors@, *settings)
            && s.name@ == "Test Style"@ && s.author@ == ""@ && (settings.style
            == PaletteStyle::Dark ==> s.variant@ == "dark"@) && (settings.style
            == PaletteStyle::Light ==> s.variant@ == "light"@)),
        (r is Err) <==> (settings.keep matches Some(k) && k < 8),
        r matches Err(e) ==> e == PaletteError::InsufficientColors,
{
    let palette = match generate_palette(colors, settings) {
        Ok(p) => p,
        Err(e) => {
            return Err(e);
        },
    };
    Ok(
        Base24Style {
            name: String::from_str("Test Style"),
            author: String::from_str(""),
            variant: settings.style.name(),
            palette,
        },
    )
}

} // verus!
