//! PW0 run-length encoding of Anycubic layer images.
//!
//! PW0 quantises every pixel to 4 bits, `colour = byte >> 4`, and writes each
//! run of equal colours as a series of chunks:
//! - black (`0x0`) and white (`0xF`): two bytes, the big-endian word
//!   `colour << 12 | repeat`, with at most 4095 repeats per word;
//! - grey (`0x1..=0xE`): one byte, `colour << 4 | repeat`, with at most 15
//!   repeats per byte.

use vstd::prelude::*;

verus! {

/// Most repeats that one two-byte black or white word can carry.
const RLE4_ENCODING_LIMIT: u32 = 0xFFF;

/// Most repeats that one one-byte grey chunk can carry.
const GREY_ENCODING_LIMIT: u32 = 0xF;

/// The 4-bit colour of an 8-bit grey pixel.
pub open spec fn colour_of(byte: u8) -> u8 {
    byte / 16
}

/// The 4-bit colours of a row-major mask.
pub open spec fn colours(mask: Seq<u8>) -> Seq<u8> {
    mask.map_values(|b: u8| colour_of(b))
}

/// Whether the colour takes the two-byte chunks (black or white).
pub open spec fn is_wide(colour: u8) -> bool {
    colour == 0 || colour == 15
}

/// The PW0 bytes of `reps` pixels of one colour: as many full chunks as
/// fit, then the rest in a last, shorter chunk. A grey chunk keeps only the
/// low four bits of the colour.
pub open spec fn run_bytes(colour: u8, reps: nat) -> Seq<u8>
    decreases reps,
{
    if reps == 0 {
        seq![]
    } else if is_wide(colour) {
        let done: nat = if reps > 4095 { 4095 } else { reps };
        seq![(colour * 16 + done / 256) as u8, (done % 256) as u8] + run_bytes(colour, (reps - done) as nat)
    } else {
        let done: nat = if reps > 15 { 15 } else { reps };
        seq![((colour % 16) * 16 + done) as u8] + run_bytes(colour, (reps - done) as nat)
    }
}

/// The maximal runs of equal colours in `cs`, left to right, each as its
/// colour and its length.
pub open spec fn colour_runs(cs: Seq<u8>) -> Seq<(u8, nat)>
    decreases cs.len(),
{
    if cs.len() == 0 {
        seq![]
    } else {
        let rs = colour_runs(cs.drop_last());
        let c = cs.last();
        if rs.len() > 0 && rs.last().0 == c {
            rs.update(rs.len() - 1, (c, rs.last().1 + 1))
        } else {
            rs.push((c, 1nat))
        }
    }
}

/// The PW0 bytes of a series of runs, one after the other.
pub open spec fn encode_runs(rs: Seq<(u8, nat)>) -> Seq<u8>
    decreases rs.len(),
{
    if rs.len() == 0 {
        seq![]
    } else {
        encode_runs(rs.drop_last()) + run_bytes(rs.last().0, rs.last().1)
    }
}

/// The PW0 encoding of an 8-bit grey mask: its maximal runs of equal 4-bit
/// colours, each encoded in turn.
pub open spec fn pw0_encoding(mask: Seq<u8>) -> Seq<u8> {
    encode_runs(colour_runs(colours(mask)))
}

/// A run of `length` pixels of the 8-bit grey `value` in a row-major
/// rasterised layer.
#[derive(Debug, Clone, Copy, PartialEq, Eq, Structural)]
pub struct RleRun {
    pub length: u32,
    pub value: u8,
}

/// The colour runs that a layer of `budget` pixels takes from `runs`: each
/// run in turn, as its colour and its length cut to the pixels still left,
/// up to the first run that has no pixel left to give.
pub open spec fn clipped_runs(runs: Seq<RleRun>, budget: nat) -> Seq<(u8, nat)>
    decreases runs.len(),
{
    if runs.len() == 0 {
        seq![]
    } else {
        let n: nat = if (runs[0].length as nat) < budget { runs[0].length as nat } else { budget };
        if n == 0 {
            seq![]
        } else {
            seq![(colour_of(runs[0].value), n)] + clipped_runs(runs.drop_first(), (budget - n) as nat)
        }
    }
}

/// The number of pixels in a series of colour runs.
pub open spec fn pieces_total(ps: Seq<(u8, nat)>) -> nat
    decreases ps.len(),
{
    if ps.len() == 0 {
        0
    } else {
        pieces_total(ps.drop_last()) + ps.last().1
    }
}

/// A series of colour runs with each run joined to the one before it where
/// both have the same colour; a joined length is capped at `u32::MAX`.
pub open spec fn merge_runs(ps: Seq<(u8, nat)>) -> Seq<(u8, nat)>
    decreases ps.len(),
{
    if ps.len() == 0 {
        seq![]
    } else {
        let ms = merge_runs(ps.drop_last());
        let p = ps.last();
        if ms.len() > 0 && ms.last().0 == p.0 {
            let joined: nat = if ms.last().1 + p.1 > u32::MAX { u32::MAX as nat } else { ms.last().1 + p.1 };
            ms.update(ms.len() - 1, (p.0, joined))
        } else {
            ms.push(p)
        }
    }
}

/// The PW0 encoding of a layer of `total` pixels given as row-major runs: the
/// merged runs that fit in the layer, then the pixels that no run covered,
/// taken modulo 2^32, as one separate black run.
pub open spec fn pw0_rle_encoding(runs: Seq<RleRun>, total: nat) -> Seq<u8> {
    let ps = clipped_runs(runs, total);
    encode_runs(merge_runs(ps)) + run_bytes(0, ((total - pieces_total(ps)) % 0x1_0000_0000) as nat)
}

/// Whether every maximal colour run of `mask` is at most `u32::MAX` long.
pub open spec fn runs_fit_u32(mask: Seq<u8>) -> bool {
    forall|k: int| 0 <= k < colour_runs(colours(mask)).len() ==> #[trigger] colour_runs(colours(mask))[k].1 <= u32::MAX
}

proof fn lemma_wide_word(colour: u8, done: u32)
    requires
        colour < 16,
        done <= 4095,
    ensures
        ((((done as u16) | ((colour as u16) << 12u16)) >> 8u16) as u8) as int == colour * 16 + done / 256,
        (((done as u16) | ((colour as u16) << 12u16)) as u8) as int == done % 256,
{
    assert(((((done as u16) | ((colour as u16) << 12u16)) >> 8u16) as u8) as int == colour * 16 + done / 256)
        by (bit_vector)
        requires
            colour < 16,
            done <= 4095,
    ;
    assert((((done as u16) | ((colour as u16) << 12u16)) as u8) as int == done % 256) by (bit_vector)
        requires
            done <= 4095,
    ;
}

proof fn lemma_grey_byte(colour: u8, done: u32)
    requires
        done <= 15,
    ensures
        ((done as u8) | (colour << 4u8)) as int == (colour % 16) * 16 + done,
{
    assert(((done as u8) | (colour << 4u8)) as int == (colour % 16) * 16 + done) by (bit_vector)
        requires
            done <= 15,
    ;
}

/// Appends the PW0 bytes of `reps` pixels of `colour` to `out` and resets
/// `reps` to zero.
pub fn flush_run(out: &mut Vec<u8>, colour: u8, reps: &mut u32)
    ensures
        final(out)@ == old(out)@ + run_bytes(colour, *old(reps) as nat),
        *final(reps) == 0,
{
    let ghost start = out@;
    let ghost total = *reps;
    while *reps > 0
        invariant
            start + run_bytes(colour, total as nat) == out@ + run_bytes(colour, *reps as nat),
        decreases *reps,
    {
        let ghost before = out@;
        let ghost r = *reps;
        if colour == 0x0 || colour == 0xF {
            let done: u32 = if *reps < RLE4_ENCODING_LIMIT { *reps } else { RLE4_ENCODING_LIMIT };
            let word: u16 = (done as u16) | ((colour as u16) << 12u16);
            out.push((word >> 8u16) as u8);
            out.push(word as u8);
            *reps = *reps - done;
            proof {
                lemma_wide_word(colour, done);
                assert(out@ == before + seq![(colour * 16 + done / 256) as u8, (done % 256) as u8]);
                assert(run_bytes(colour, r as nat) == seq![(colour * 16 + done / 256) as u8, (done % 256) as u8]
                    + run_bytes(colour, *reps as nat));
            }
        } else {
            let done: u32 = if *reps < GREY_ENCODING_LIMIT { *reps } else { GREY_ENCODING_LIMIT };
            out.push((done as u8) | (colour << 4u8));
            *reps = *reps - done;
            proof {
                lemma_grey_byte(colour, done);
                assert(out@ == before + seq![((colour % 16) * 16 + done) as u8]);
                assert(run_bytes(colour, r as nat) == seq![((colour % 16) * 16 + done) as u8] + run_bytes(
                    colour,
                    *reps as nat,
                ));
            }
        }
        assert(start + run_bytes(colour, total as nat) == out@ + run_bytes(colour, *reps as nat));
    }
    assert(run_bytes(colour, 0) == Seq::<u8>::empty());
    assert(out@ =~= start + run_bytes(colour, total as nat));
}

proof fn lemma_runs_step(cs: Seq<u8>, j: int)
    requires
        0 <= j < cs.len(),
    ensures
        colour_runs(cs.take(j)).len() <= colour_runs(cs.take(j + 1)).len(),
        forall|k: int|
            0 <= k < colour_runs(cs.take(j)).len() ==> colour_runs(cs.take(j))[k].1 <= colour_runs(
                cs.take(j + 1),
            )[k].1,
{
    assert(cs.take(j + 1).drop_last() =~= cs.take(j));
}

/// The runs of a prefix are no longer than those of a longer prefix.
proof fn lemma_runs_prefix(cs: Seq<u8>, i: int, j: int)
    requires
        0 <= i <= j <= cs.len(),
    ensures
        colour_runs(cs.take(i)).len() <= colour_runs(cs.take(j)).len(),
        forall|k: int|
            0 <= k < colour_runs(cs.take(i)).len() ==> colour_runs(cs.take(i))[k].1 <= colour_runs(
                cs.take(j),
            )[k].1,
    decreases j - i,
{
    if i < j {
        lemma_runs_prefix(cs, i, j - 1);
        lemma_runs_step(cs, j - 1);
    }
}

/// Encodes a raw 8-bit grey mask into PW0 bytes.
pub fn encode_pw0(mask: &[u8]) -> (out: Vec<u8>)
    requires
        runs_fit_u32(mask@),
    ensures
        out@ == pw0_encoding(mask@),
{
    let ghost cs = colours(mask@);
    let mut out: Vec<u8> = Vec::new();
    let mut last_colour: i32 = -1;
    let mut reps: u32 = 0;
    let mut i: usize = 0;
    proof {
        assert(cs.take(cs.len() as int) =~= cs);
    }
    while i < mask.len()
        invariant
            cs == colours(mask@),
            cs.len() == mask@.len(),
            runs_fit_u32(mask@),
            i <= mask@.len(),
            -1 <= last_colour < 16,
            (i == 0) == (last_colour == -1),
            i == 0 ==> out@ == Seq::<u8>::empty(),
            i > 0 ==> {
                let rs = colour_runs(cs.take(i as int));
                &&& rs.len() > 0
                &&& rs.last() == (last_colour as u8, reps as nat)
                &&& out@ == encode_runs(rs.drop_last())
            },
        decreases mask@.len() - i,
    {
        let byte = mask[i];
        let colour: i32 = (byte >> 4u8) as i32;
        proof {
            assert((byte >> 4u8) == byte / 16) by (bit_vector);
            assert(cs.take(i + 1).drop_last() =~= cs.take(i as int));
            assert(cs[i as int] == byte / 16);
        }
        let ghost rs = colour_runs(cs.take(i as int));
        let ghost rs2 = colour_runs(cs.take(i + 1));
        if colour == last_colour {
            proof {
                lemma_runs_prefix(cs, i + 1, cs.len() as int);
                assert(cs.take(cs.len() as int) =~= cs);
                assert(rs2 == rs.update(rs.len() - 1, (cs[i as int], rs.last().1 + 1)));
                assert(rs2[rs2.len() - 1].1 <= colour_runs(cs)[rs2.len() - 1].1);
            }
            reps = reps + 1;
            assert(rs2.drop_last() =~= rs.drop_last());
        } else {
            if last_colour >= 0 {
                flush_run(&mut out, last_colour as u8, &mut reps);
                assert(rs =~= rs.drop_last().push(rs.last()));
            }
            last_colour = colour;
            reps = 1;
            assert(rs2.drop_last() =~= rs);
        }
        i = i + 1;
    }
    if last_colour >= 0 {
        let ghost rs = colour_runs(cs);
        flush_run(&mut out, last_colour as u8, &mut reps);
        assert(rs =~= rs.drop_last().push(rs.last()));
    }
    out
}

/// The pixels that `clipped_runs` hands out do not exceed the budget.
proof fn lemma_clipped_total(runs: Seq<RleRun>, budget: nat)
    ensures
        pieces_total(clipped_runs(runs, budget)) <= budget,
    decreases runs.len(),
{
    if runs.len() > 0 {
        let n: nat = if (runs[0].length as nat) < budget { runs[0].length as nat } else { budget };
        if n > 0 {
            let rest = clipped_runs(runs.drop_first(), (budget - n) as nat);
            lemma_clipped_total(runs.drop_first(), (budget - n) as nat);
            lemma_pieces_total_prepend((colour_of(runs[0].value), n), rest);
        }
    }
}

proof fn lemma_pieces_total_prepend(p: (u8, nat), ps: Seq<(u8, nat)>)
    ensures
        pieces_total(seq![p] + ps) == p.1 + pieces_total(ps),
    decreases ps.len(),
{
    if ps.len() == 0 {
        assert(seq![p] + ps =~= seq![p]);
        assert(seq![p].drop_last() =~= Seq::<(u8, nat)>::empty());
        assert(seq![p].last() == p);
        assert(pieces_total(Seq::<(u8, nat)>::empty()) == 0);
    } else {
        lemma_pieces_total_prepend(p, ps.drop_last());
        assert((seq![p] + ps).drop_last() =~= seq![p] + ps.drop_last());
    }
}

/// Turns the count of uncovered pixels into the `u32` that the encoder
/// flushes, wrapping as the conversion does.
fn uncovered_count(total: usize, emitted: usize) -> (t: u32)
    requires
        emitted <= total,
    ensures
        t as int == (total - emitted) % 0x1_0000_0000,
{
    let diff: u64 = (total - emitted) as u64;
    let t: u32 = diff as u32;
    assert(t as u64 == diff % 0x1_0000_0000u64) by (bit_vector)
        requires
            t == diff as u32,
    ;
    t
}

/// Encodes rasterised row-major runs directly into PW0 bytes, for a layer of
/// `total_pixels` pixels: runs are cut to the layer, joined where adjacent
/// runs share a colour, and the pixels that no run covers are encoded as
/// black.
pub fn encode_pw0_from_rle(runs: &[RleRun], total_pixels: usize) -> (out: Vec<u8>)
    ensures
        out@ == pw0_rle_encoding(runs@, total_pixels as nat),
{
    let mut out: Vec<u8> = Vec::new();
    proof {
        lemma_clipped_total(runs@, total_pixels as nat);
    }
    if runs.len() == 0 {
        let mut remaining: u32 = uncovered_count(total_pixels, 0);
        flush_run(&mut out, 0, &mut remaining);
        assert(out@ =~= pw0_rle_encoding(runs@, total_pixels as nat));
        return out;
    }
    let mut last_colour: Option<u8> = None;
    let mut reps: u32 = 0;
    let mut emitted_pixels: usize = 0;
    let mut stopped: bool = false;
    let mut i: usize = 0;
    let ghost mut pieces: Seq<(u8, nat)> = seq![];
    proof {
        assert(runs@.skip(0) =~= runs@);
        assert(pieces + clipped_runs(runs@, total_pixels as nat) =~= clipped_runs(runs@, total_pixels as nat));
    }
    while i < runs.len() && !stopped
        invariant
            i <= runs@.len(),
            emitted_pixels <= total_pixels,
            emitted_pixels == pieces_total(pieces),
            clipped_runs(runs@, total_pixels as nat) == pieces + (if stopped {
                Seq::<(u8, nat)>::empty()
            } else {
                clipped_runs(runs@.skip(i as int), (total_pixels - emitted_pixels) as nat)
            }),
            last_colour is None <==> pieces.len() == 0,
            last_colour is None ==> out@ == Seq::<u8>::empty(),
            last_colour matches Some(c) ==> {
                let ms = merge_runs(pieces);
                &&& c < 16
                &&& ms.len() > 0
                &&& ms.last() == (c, reps as nat)
                &&& out@ == encode_runs(ms.drop_last())
            },
        decreases runs@.len() - i + (if stopped { 0int } else { 1int }),
    {
        let run = runs[i];
        let colour: u8 = run.value >> 4u8;
        proof {
            let v = run.value;
            assert((v >> 4u8) == v / 16) by (bit_vector);
        }
        let run_len: usize = run.length as usize;
        let available: usize = total_pixels.saturating_sub(emitted_pixels);
        let to_emit: u32 = if run_len < available { run_len as u32 } else { available as u32 };
        let ghost budget: nat = (total_pixels - emitted_pixels) as nat;
        let ghost rest = runs@.skip(i as int);
        proof {
            assert(rest[0] == run);
            assert(rest.drop_first() =~= runs@.skip(i + 1));
        }
        if to_emit == 0 {
            stopped = true;
            assert(clipped_runs(rest, budget) =~= Seq::<(u8, nat)>::empty());
            assert(pieces + Seq::<(u8, nat)>::empty() =~= pieces);
        } else {
            let ghost p: (u8, nat) = (colour, to_emit as nat);
            let ghost ms = merge_runs(pieces);
            let ghost pieces2 = pieces.push(p);
            proof {
                assert(pieces2.drop_last() =~= pieces);
                assert(clipped_runs(rest, budget) == seq![p] + clipped_runs(runs@.skip(i + 1), (budget - to_emit) as nat));
                assert(pieces + (seq![p] + clipped_runs(runs@.skip(i + 1), (budget - to_emit) as nat))
                    =~= pieces2 + clipped_runs(runs@.skip(i + 1), (budget - to_emit) as nat));
            }
            if last_colour == Some(colour) {
                reps = reps.saturating_add(to_emit);
                assert(merge_runs(pieces2).drop_last() =~= ms.drop_last());
            } else {
                match last_colour {
                    Some(prev_colour) => {
                        flush_run(&mut out, prev_colour, &mut reps);
                        assert(ms =~= ms.drop_last().push(ms.last()));
                    },
                    None => {
                        assert(ms =~= Seq::<(u8, nat)>::empty());
                    },
                }
                last_colour = Some(colour);
                reps = to_emit;
                assert(merge_runs(pieces2).drop_last() =~= ms);
            }
            emitted_pixels = emitted_pixels.saturating_add(to_emit as usize);
            proof {
                pieces = pieces2;
            }
            i = i + 1;
        }
    }
    proof {
        if !stopped {
            assert(runs@.skip(i as int) =~= Seq::<RleRun>::empty());
        }
        assert(pieces + Seq::<(u8, nat)>::empty() =~= pieces);
        assert(clipped_runs(runs@, total_pixels as nat) == pieces);
    }
    match last_colour {
        Some(colour) => {
            let ghost ms = merge_runs(pieces);
            flush_run(&mut out, colour, &mut reps);
            assert(ms =~= ms.drop_last().push(ms.last()));
        },
        None => {
            assert(merge_runs(pieces) =~= Seq::<(u8, nat)>::empty());
        },
    }
    let trailing_zeros: u32 = uncovered_count(total_pixels, emitted_pixels);
    if trailing_zeros > 0 {
        let mut remaining: u32 = trailing_zeros;
        flush_run(&mut out, 0, &mut remaining);
    } else {
        assert(out@ =~= out@ + run_bytes(0, 0));
    }
    out
}

/// The row-major 8-bit mask that `runs` rasterise to.
pub open spec fn expand_runs(runs: Seq<RleRun>) -> Seq<u8>
    decreases runs.len(),
{
    if runs.len() == 0 {
        seq![]
    } else {
        expand_runs(runs.drop_last()) + Seq::new(runs.last().length as nat, |_k: int| runs.last().value)
    }
}

/// The number of pixels that `runs` cover.
pub open spec fn rle_total(runs: Seq<RleRun>) -> nat
    decreases runs.len(),
{
    if runs.len() == 0 {
        0
    } else {
        rle_total(runs.drop_last()) + runs.last().length as nat
    }
}

/// Each run as its colour and its length.
pub open spec fn pieces_of(runs: Seq<RleRun>) -> Seq<(u8, nat)> {
    runs.map_values(|r: RleRun| (colour_of(r.value), r.length as nat))
}

/// `runs` followed by `n` pixels of colour `c`: the last run grows where it has
/// colour `c`, else a new run starts.
pub open spec fn extend_runs(rs: Seq<(u8, nat)>, c: u8, n: nat) -> Seq<(u8, nat)> {
    if rs.len() > 0 && rs.last().0 == c {
        rs.update(rs.len() - 1, (c, rs.last().1 + n))
    } else {
        rs.push((c, n))
    }
}

proof fn lemma_rle_total_prepend(runs: Seq<RleRun>)
    requires
        runs.len() > 0,
    ensures
        rle_total(runs) == runs[0].length + rle_total(runs.drop_first()),
    decreases runs.len(),
{
    if runs.len() > 1 {
        lemma_rle_total_prepend(runs.drop_last());
        assert(runs.drop_last().drop_first() =~= runs.drop_first().drop_last());
    } else {
        assert(runs.drop_first() =~= Seq::<RleRun>::empty());
        assert(runs.drop_last() =~= Seq::<RleRun>::empty());
    }
}

/// With every run non-empty and all of them inside the budget, clipping
/// changes nothing.
proof fn lemma_clipped_all(runs: Seq<RleRun>, budget: nat)
    requires
        forall|k: int| 0 <= k < runs.len() ==> #[trigger] runs[k].length > 0,
        rle_total(runs) <= budget,
    ensures
        clipped_runs(runs, budget) == pieces_of(runs),
    decreases runs.len(),
{
    if runs.len() == 0 {
        assert(pieces_of(runs) =~= Seq::<(u8, nat)>::empty());
    } else {
        lemma_rle_total_prepend(runs);
        let rest = runs.drop_first();
        assert forall|k: int| 0 <= k < rest.len() implies #[trigger] rest[k].length > 0 by {
            assert(rest[k] == runs[k + 1]);
        }
        assert(runs[0].length > 0);
        lemma_clipped_all(rest, (budget - runs[0].length) as nat);
        assert(pieces_of(runs) =~= seq![(colour_of(runs[0].value), runs[0].length as nat)] + pieces_of(rest));
    }
}

proof fn lemma_pieces_total_of(runs: Seq<RleRun>)
    ensures
        pieces_total(pieces_of(runs)) == rle_total(runs),
    decreases runs.len(),
{
    if runs.len() > 0 {
        lemma_pieces_total_of(runs.drop_last());
        assert(pieces_of(runs).drop_last() =~= pieces_of(runs.drop_last()));
    }
}

/// No merged run is longer than all the pieces together.
proof fn lemma_merge_bounded(ps: Seq<(u8, nat)>)
    ensures
        forall|k: int| 0 <= k < merge_runs(ps).len() ==> #[trigger] merge_runs(ps)[k].1 <= pieces_total(ps),
        ps.len() > 0 ==> merge_runs(ps).len() > 0 && merge_runs(ps).last().0 == ps.last().0,
        ps.len() == 0 ==> merge_runs(ps).len() == 0,
    decreases ps.len(),
{
    if ps.len() > 0 {
        lemma_merge_bounded(ps.drop_last());
    }
}

/// Appending `n > 0` pixels of one colour to a colour sequence extends its
/// runs by `extend_runs`.
proof fn lemma_colour_runs_append(cs: Seq<u8>, c: u8, n: nat)
    requires
        n > 0,
    ensures
        colour_runs(cs + Seq::new(n, |_k: int| c)) == extend_runs(colour_runs(cs), c, n),
    decreases n,
{
    let whole = cs + Seq::new(n, |_k: int| c);
    assert(whole.drop_last() =~= cs + Seq::new((n - 1) as nat, |_k: int| c));
    assert(whole.last() == c);
    if n == 1 {
        assert(cs + Seq::new(0, |_k: int| c) =~= cs);
    } else {
        lemma_colour_runs_append(cs, c, (n - 1) as nat);
    }
}

/// Rasterising runs and then finding the colour runs of the mask gives the
/// runs' pieces, merged, provided that no run is empty and the merged lengths
/// never reach the cap.
proof fn lemma_runs_of_expansion(runs: Seq<RleRun>)
    requires
        forall|k: int| 0 <= k < runs.len() ==> #[trigger] runs[k].length > 0,
        rle_total(runs) <= u32::MAX,
    ensures
        colour_runs(colours(expand_runs(runs))) == merge_runs(pieces_of(runs)),
    decreases runs.len(),
{
    if runs.len() == 0 {
        assert(colours(expand_runs(runs)) =~= Seq::<u8>::empty());
    } else {
        let init = runs.drop_last();
        let r = runs.last();
        assert forall|k: int| 0 <= k < init.len() implies #[trigger] init[k].length > 0 by {
            assert(init[k] == runs[k]);
        }
        assert(r == runs[runs.len() - 1]);
        lemma_runs_of_expansion(init);
        let c = colour_of(r.value);
        let n = r.length as nat;
        assert(colours(expand_runs(runs)) =~= colours(expand_runs(init)) + Seq::new(n, |_k: int| c));
        lemma_colour_runs_append(colours(expand_runs(init)), c, n);
        let ps = pieces_of(runs);
        assert(ps.drop_last() =~= pieces_of(init));
        assert(ps.last() == (c, n));
        lemma_merge_bounded(pieces_of(init));
        lemma_pieces_total_of(init);
        let ms = merge_runs(pieces_of(init));
        if ms.len() > 0 {
            assert(ms[ms.len() - 1].1 <= rle_total(init));
        }
    }
}

/// Encoding runs that fit in the layer gives the encoding of their mask
/// padded with black, unless the padding follows a black run.
proof fn lemma_rle_matches_padded_mask(runs: Seq<RleRun>, total: nat)
    requires
        forall|k: int| 0 <= k < runs.len() ==> #[trigger] runs[k].length > 0,
        rle_total(runs) <= total <= u32::MAX,
        rle_total(runs) == total || runs.len() == 0 || colour_of(runs.last().value) != 0,
    ensures
        pw0_rle_encoding(runs, total) == pw0_encoding(
            expand_runs(runs) + Seq::new((total - rle_total(runs)) as nat, |_k: int| 0u8),
        ),
{
    let pad = (total - rle_total(runs)) as nat;
    let mask = expand_runs(runs) + Seq::new(pad, |_k: int| 0u8);
    lemma_clipped_all(runs, total);
    lemma_pieces_total_of(runs);
    lemma_runs_of_expansion(runs);
    lemma_merge_bounded(pieces_of(runs));
    let rs = colour_runs(colours(expand_runs(runs)));
    assert((total - pieces_total(clipped_runs(runs, total))) % 0x1_0000_0000 == pad);
    if pad == 0 {
        assert(mask =~= expand_runs(runs));
        assert(run_bytes(0, 0) =~= Seq::<u8>::empty());
        assert(encode_runs(rs) + run_bytes(0, 0) =~= encode_runs(rs));
    } else {
        assert(colours(mask) =~= colours(expand_runs(runs)) + Seq::new(pad, |_k: int| 0u8));
        lemma_colour_runs_append(colours(expand_runs(runs)), 0, pad);
        if runs.len() > 0 {
            assert(pieces_of(runs).last() == (colour_of(runs.last().value), runs.last().length as nat));
        }
        assert(extend_runs(rs, 0, pad) == rs.push((0u8, pad)));
        assert(rs.push((0u8, pad)).drop_last() =~= rs);
    }
}

/// The colour sequence that a series of runs spells out.
pub open spec fn flatten_runs(rs: Seq<(u8, nat)>) -> Seq<u8>
    decreases rs.len(),
{
    if rs.len() == 0 {
        seq![]
    } else {
        flatten_runs(rs.drop_last()) + Seq::new(rs.last().1, |_k: int| rs.last().0)
    }
}

/// Law: `colour_runs` cuts a colour sequence into its maximal runs: they
/// spell the sequence out again, none is empty and no two neighbours share a
/// colour.
pub proof fn law_colour_runs_are_maximal(cs: Seq<u8>)
    ensures
        flatten_runs(colour_runs(cs)) == cs,
        forall|k: int| 0 <= k < colour_runs(cs).len() ==> #[trigger] colour_runs(cs)[k].1 > 0,
        forall|k: int|
            0 <= k < colour_runs(cs).len() - 1 ==> #[trigger] colour_runs(cs)[k].0 != colour_runs(cs)[k + 1].0,
    decreases cs.len(),
{
    if cs.len() > 0 {
        let init = cs.drop_last();
        let c = cs.last();
        law_colour_runs_are_maximal(init);
        let rs = colour_runs(init);
        let rs2 = colour_runs(cs);
        if rs.len() > 0 && rs.last().0 == c {
            assert(rs2.drop_last() =~= rs.drop_last());
            assert(rs == rs.drop_last().push(rs.last()));
            assert(Seq::new(rs.last().1 + 1, |_k: int| c) =~= Seq::new(rs.last().1, |_k: int| c).push(c));
            assert(flatten_runs(rs2) =~= flatten_runs(rs).push(c));
            assert forall|k: int| 0 <= k < rs2.len() - 1 implies #[trigger] rs2[k].0 != rs2[k + 1].0 by {
                assert(rs2[k] == rs[k]);
                assert(rs2[k + 1].0 == rs[k + 1].0);
            }
        } else {
            assert(rs2.drop_last() =~= rs);
            assert(Seq::new(1nat, |_k: int| c) =~= seq![c]);
            assert(flatten_runs(rs2) =~= flatten_runs(rs).push(c));
        }
        assert(init.push(c) =~= cs);
    }
}

proof fn lemma_flatten_covers_each_run(rs: Seq<(u8, nat)>)
    ensures
        forall|k: int| 0 <= k < rs.len() ==> #[trigger] rs[k].1 <= flatten_runs(rs).len(),
    decreases rs.len(),
{
    if rs.len() > 0 {
        lemma_flatten_covers_each_run(rs.drop_last());
        assert forall|k: int| 0 <= k < rs.len() implies #[trigger] rs[k].1 <= flatten_runs(rs).len() by {
            if k < rs.len() - 1 {
                assert(rs[k] == rs.drop_last()[k]);
            }
        }
    }
}

/// A mask of at most `u32::MAX` pixels has no colour run too long for
/// `encode_pw0`.
pub proof fn lemma_short_mask_runs_fit(mask: Seq<u8>)
    requires
        mask.len() <= u32::MAX,
    ensures
        runs_fit_u32(mask),
{
    law_colour_runs_are_maximal(colours(mask));
    lemma_flatten_covers_each_run(colour_runs(colours(mask)));
}

/// The 4-bit colours that PW0 bytes stand for, read chunk by chunk from the
/// front: a byte whose high nibble is black or white opens a two-byte word
/// whose low 12 bits count the pixels, any other byte is a grey chunk whose
/// low nibble counts them. `None` where a word is cut off.
pub open spec fn pw0_decoding(bytes: Seq<u8>) -> Option<Seq<u8>>
    decreases bytes.len(),
{
    if bytes.len() == 0 {
        Some(seq![])
    } else {
        let colour = colour_of(bytes[0]);
        if is_wide(colour) {
            if bytes.len() < 2 {
                None
            } else {
                let reps: nat = ((bytes[0] % 16) * 256 + bytes[1]) as nat;
                match pw0_decoding(bytes.skip(2)) {
                    Some(rest) => Some(Seq::new(reps, |_k: int| colour) + rest),
                    None => None,
                }
            }
        } else {
            let reps: nat = (bytes[0] % 16) as nat;
            match pw0_decoding(bytes.skip(1)) {
                Some(rest) => Some(Seq::new(reps, |_k: int| colour) + rest),
                None => None,
            }
        }
    }
}

proof fn lemma_decoding_concat(a: Seq<u8>, b: Seq<u8>)
    requires
        pw0_decoding(a) is Some,
        pw0_decoding(b) is Some,
    ensures
        pw0_decoding(a + b) == Some(pw0_decoding(a)->Some_0 + pw0_decoding(b)->Some_0),
    decreases a.len(),
{
    if a.len() == 0 {
        assert(a + b =~= b);
        assert(pw0_decoding(a)->Some_0 + pw0_decoding(b)->Some_0 =~= pw0_decoding(b)->Some_0);
    } else {
        let k: int = if is_wide(colour_of(a[0])) { 2 } else { 1 };
        assert((a + b)[0] == a[0]);
        if k == 2 {
            assert((a + b)[1] == a[1]);
        }
        assert((a + b).skip(k) =~= a.skip(k) + b);
        lemma_decoding_concat(a.skip(k), b);
        assert(pw0_decoding(a + b)->Some_0 =~= pw0_decoding(a)->Some_0 + pw0_decoding(b)->Some_0);
    }
}

proof fn lemma_run_bytes_decode(colour: u8, reps: nat)
    requires
        colour < 16,
    ensures
        pw0_decoding(run_bytes(colour, reps)) == Some(Seq::new(reps, |_k: int| colour)),
    decreases reps,
{
    if reps == 0 {
        assert(run_bytes(colour, 0) =~= Seq::<u8>::empty());
        assert(Seq::new(0nat, |_k: int| colour) =~= Seq::<u8>::empty());
    } else {
        let wide = is_wide(colour);
        let done: nat = if wide {
            if reps > 4095 { 4095 } else { reps }
        } else {
            if reps > 15 { 15 } else { reps }
        };
        let chunk: Seq<u8> = if wide {
            seq![(colour * 16 + done / 256) as u8, (done % 256) as u8]
        } else {
            seq![((colour % 16) * 16 + done) as u8]
        };
        lemma_run_bytes_decode(colour, (reps - done) as nat);
        assert(run_bytes(colour, reps) == chunk + run_bytes(colour, (reps - done) as nat));
        assert(colour_of(chunk[0]) == colour);
        assert(chunk[0] % 16 == (if wide { done / 256 } else { done }));
        if wide {
            assert(chunk.skip(2) =~= Seq::<u8>::empty());
        } else {
            assert(chunk.skip(1) =~= Seq::<u8>::empty());
        }
        assert(pw0_decoding(Seq::<u8>::empty()) == Some(Seq::<u8>::empty()));
        assert(pw0_decoding(chunk) == Some(Seq::new(done, |_k: int| colour) + Seq::<u8>::empty()));
        lemma_decoding_concat(chunk, run_bytes(colour, (reps - done) as nat));
        assert(Seq::new(done, |_k: int| colour) + Seq::<u8>::empty() + Seq::new(
            (reps - done) as nat,
            |_k: int| colour,
        ) =~= Seq::new(reps, |_k: int| colour));
    }
}

proof fn lemma_encode_runs_decode(rs: Seq<(u8, nat)>)
    requires
        forall|k: int| 0 <= k < rs.len() ==> #[trigger] rs[k].0 < 16,
    ensures
        pw0_decoding(encode_runs(rs)) == Some(flatten_runs(rs)),
    decreases rs.len(),
{
    if rs.len() > 0 {
        let init = rs.drop_last();
        assert forall|k: int| 0 <= k < init.len() implies #[trigger] init[k].0 < 16 by {
            assert(init[k] == rs[k]);
        }
        lemma_encode_runs_decode(init);
        assert(rs.last() == rs[rs.len() - 1]);
        lemma_run_bytes_decode(rs.last().0, rs.last().1);
        lemma_decoding_concat(encode_runs(init), run_bytes(rs.last().0, rs.last().1));
    }
}

proof fn lemma_colour_runs_below_16(cs: Seq<u8>)
    requires
        forall|k: int| 0 <= k < cs.len() ==> #[trigger] cs[k] < 16,
    ensures
        forall|k: int| 0 <= k < colour_runs(cs).len() ==> #[trigger] colour_runs(cs)[k].0 < 16,
    decreases cs.len(),
{
    if cs.len() > 0 {
        let init = cs.drop_last();
        assert forall|k: int| 0 <= k < init.len() implies #[trigger] init[k] < 16 by {
            assert(init[k] == cs[k]);
        }
        lemma_colour_runs_below_16(init);
        assert(cs.last() == cs[cs.len() - 1]);
        let rs = colour_runs(init);
        let rs2 = colour_runs(cs);
        assert forall|k: int| 0 <= k < rs2.len() implies #[trigger] rs2[k].0 < 16 by {
            if k < rs.len() && !(rs.len() > 0 && rs.last().0 == cs.last() && k == rs.len() - 1) {
                assert(rs2[k] == rs[k]);
            }
        }
    }
}

/// Law: PW0 encoding loses nothing but the low nibble of each pixel: reading
/// the encoding of a mask back, chunk by chunk, gives the mask's 4-bit
/// colours.
pub proof fn law_pw0_encoding_decodes_to_colours(mask: Seq<u8>)
    ensures
        pw0_decoding(pw0_encoding(mask)) == Some(colours(mask)),
{
    let cs = colours(mask);
    assert forall|k: int| 0 <= k < cs.len() implies #[trigger] cs[k] < 16 by {}
    lemma_colour_runs_below_16(cs);
    lemma_encode_runs_decode(colour_runs(cs));
    law_colour_runs_are_maximal(cs);
}

/// Law: PW0 encoding reads only the high nibble of each pixel: two masks of
/// the same length whose pixels agree in their high nibbles encode alike.
pub proof fn law_pw0_encoding_reads_high_nibbles(a: Seq<u8>, b: Seq<u8>)
    requires
        a.len() == b.len(),
        forall|i: int| 0 <= i < a.len() ==> #[trigger] colour_of(a[i]) == colour_of(b[i]),
    ensures
        pw0_encoding(a) == pw0_encoding(b),
{
    assert(colours(a) =~= colours(b));
}

proof fn lemma_last_run_colour(cs: Seq<u8>)
    requires
        cs.len() > 0,
    ensures
        colour_runs(cs).len() > 0,
        colour_runs(cs).last().0 == cs.last(),
{
}

proof fn lemma_colour_runs_concat(a: Seq<u8>, b: Seq<u8>)
    requires
        a.len() > 0,
        b.len() > 0,
        a.last() != b[0],
    ensures
        colour_runs(a + b) == colour_runs(a) + colour_runs(b),
    decreases b.len(),
{
    let ab = a + b;
    assert(ab.drop_last() =~= if b.len() == 1 { a } else { a + b.drop_last() });
    assert(ab.last() == b.last());
    if b.len() == 1 {
        lemma_last_run_colour(a);
        assert(b.drop_last() =~= Seq::<u8>::empty());
        assert(colour_runs(b) =~= seq![(b[0], 1nat)]);
        assert(colour_runs(a).push((b[0], 1nat)) =~= colour_runs(a) + seq![(b[0], 1nat)]);
    } else {
        let b0 = b.drop_last();
        assert(b0[0] == b[0]);
        lemma_colour_runs_concat(a, b0);
        lemma_last_run_colour(b0);
        let ra = colour_runs(a);
        let rb = colour_runs(b0);
        let c = b.last();
        if rb.last().0 == c {
            assert(colour_runs(ab) =~= ra + rb.update(rb.len() - 1, (c, rb.last().1 + 1)));
        } else {
            assert(colour_runs(ab) =~= ra + rb.push((c, 1nat)));
        }
    }
}

proof fn lemma_encode_runs_concat(x: Seq<(u8, nat)>, y: Seq<(u8, nat)>)
    ensures
        encode_runs(x + y) == encode_runs(x) + encode_runs(y),
    decreases y.len(),
{
    if y.len() == 0 {
        assert(x + y =~= x);
        assert(encode_runs(x) + Seq::<u8>::empty() =~= encode_runs(x));
    } else {
        lemma_encode_runs_concat(x, y.drop_last());
        assert((x + y).drop_last() =~= x + y.drop_last());
        assert((x + y).last() == y.last());
        assert(encode_runs(x + y) =~= encode_runs(x) + encode_runs(y));
    }
}

/// Law: where two masks meet at a change of colour, the encoding of the
/// joined mask is the encoding of the first followed by that of the second.
pub proof fn law_pw0_encoding_splits_at_colour_change(a: Seq<u8>, b: Seq<u8>)
    requires
        a.len() > 0,
        b.len() > 0,
        colour_of(a.last()) != colour_of(b[0]),
    ensures
        pw0_encoding(a + b) == pw0_encoding(a) + pw0_encoding(b),
{
    assert(colours(a + b) =~= colours(a) + colours(b));
    lemma_colour_runs_concat(colours(a), colours(b));
    lemma_encode_runs_concat(colour_runs(colours(a)), colour_runs(colours(b)));
}

/// `runs` cut to a layer of `budget` pixels: each run in turn, shortened to
/// the pixels still left, up to the point where none is left.
pub open spec fn cut_runs(runs: Seq<RleRun>, budget: nat) -> Seq<RleRun>
    decreases runs.len(),
{
    if runs.len() == 0 || budget == 0 {
        seq![]
    } else {
        let n: nat = if (runs[0].length as nat) < budget { runs[0].length as nat } else { budget };
        seq![RleRun { length: n as u32, value: runs[0].value }] + cut_runs(runs.drop_first(), (budget - n) as nat)
    }
}

/// The row-major mask of a layer of `total` pixels rasterised from `runs`:
/// the runs' pixels up to the layer size, black after the last run.
pub open spec fn layer_mask(runs: Seq<RleRun>, total: nat) -> Seq<u8> {
    if rle_total(runs) >= total {
        expand_runs(runs).take(total as int)
    } else {
        expand_runs(runs) + Seq::new((total - rle_total(runs)) as nat, |_k: int| 0u8)
    }
}

proof fn lemma_expand_prepend(runs: Seq<RleRun>)
    requires
        runs.len() > 0,
    ensures
        expand_runs(runs) == Seq::new(runs[0].length as nat, |_k: int| runs[0].value) + expand_runs(
            runs.drop_first(),
        ),
    decreases runs.len(),
{
    if runs.len() > 1 {
        lemma_expand_prepend(runs.drop_last());
        assert(runs.drop_last().drop_first() =~= runs.drop_first().drop_last());
        assert(runs.drop_first().last() == runs.last());
        assert(expand_runs(runs) =~= Seq::new(runs[0].length as nat, |_k: int| runs[0].value) + expand_runs(
            runs.drop_first(),
        ));
    } else {
        assert(runs.drop_first() =~= Seq::<RleRun>::empty());
        assert(runs.drop_last() =~= Seq::<RleRun>::empty());
        assert(expand_runs(runs) =~= Seq::new(runs[0].length as nat, |_k: int| runs[0].value) + expand_runs(
            runs.drop_first(),
        ));
    }
}

proof fn lemma_expand_len(runs: Seq<RleRun>)
    ensures
        expand_runs(runs).len() == rle_total(runs),
    decreases runs.len(),
{
    if runs.len() > 0 {
        lemma_expand_len(runs.drop_last());
    }
}

/// What cutting does: the cut runs are non-empty, cover the layer or all the
/// runs, whichever is less, spell out that much of the mask, and are what
/// `clipped_runs` takes from non-empty runs.
proof fn lemma_cut_runs(runs: Seq<RleRun>, budget: nat)
    requires
        forall|k: int| 0 <= k < runs.len() ==> #[trigger] runs[k].length > 0,
    ensures
        forall|k: int| 0 <= k < cut_runs(runs, budget).len() ==> #[trigger] cut_runs(runs, budget)[k].length > 0,
        rle_total(cut_runs(runs, budget)) == if rle_total(runs) < budget { rle_total(runs) } else { budget },
        expand_runs(cut_runs(runs, budget)) == expand_runs(runs).take(
            if rle_total(runs) < budget { rle_total(runs) as int } else { budget as int },
        ),
        clipped_runs(runs, budget) == pieces_of(cut_runs(runs, budget)),
    decreases runs.len(),
{
    lemma_expand_len(runs);
    if runs.len() == 0 {
        assert(expand_runs(runs).take(0) =~= Seq::<u8>::empty());
        assert(pieces_of(cut_runs(runs, budget)) =~= Seq::<(u8, nat)>::empty());
    } else if budget == 0 {
        assert(expand_runs(runs).take(0) =~= Seq::<u8>::empty());
        assert(pieces_of(cut_runs(runs, budget)) =~= Seq::<(u8, nat)>::empty());
        assert(runs[0].length > 0);
    } else {
        let rest = runs.drop_first();
        assert forall|k: int| 0 <= k < rest.len() implies #[trigger] rest[k].length > 0 by {
            assert(rest[k] == runs[k + 1]);
        }
        assert(runs[0].length > 0);
        let n: nat = if (runs[0].length as nat) < budget { runs[0].length as nat } else { budget };
        let head = RleRun { length: n as u32, value: runs[0].value };
        let cut_rest = cut_runs(rest, (budget - n) as nat);
        let cut = cut_runs(runs, budget);
        assert(cut == seq![head] + cut_rest);
        lemma_cut_runs(rest, (budget - n) as nat);
        lemma_rle_total_prepend(runs);
        lemma_expand_len(rest);
        // The cut runs are non-empty.
        assert forall|k: int| 0 <= k < cut.len() implies #[trigger] cut[k].length > 0 by {
            if k > 0 {
                assert(cut[k] == cut_rest[k - 1]);
            }
        }
        // Their total.
        assert(cut.len() > 0);
        assert(cut[0] == head);
        assert(cut.drop_first() =~= cut_rest);
        lemma_rle_total_prepend(cut);
        // Their mask.
        lemma_expand_prepend(runs);
        lemma_expand_prepend(cut);
        let r0 = Seq::new(runs[0].length as nat, |_k: int| runs[0].value);
        let limit: int = if rle_total(runs) < budget { rle_total(runs) as int } else { budget as int };
        let rest_limit: int = if rle_total(rest) < budget - n { rle_total(rest) as int } else { (budget - n) as int };
        if n == runs[0].length {
            assert(limit == n + rest_limit);
            assert(expand_runs(cut) =~= (r0 + expand_runs(rest)).take(limit));
        } else {
            assert(n == budget);
            assert(cut_rest =~= Seq::<RleRun>::empty());
            assert(expand_runs(cut_rest) =~= Seq::<u8>::empty());
            assert(limit == budget);
            assert(expand_runs(cut) =~= (r0 + expand_runs(rest)).take(limit));
        }
        // What clipping takes.
        assert(pieces_of(cut) =~= seq![(colour_of(runs[0].value), n)] + pieces_of(cut_rest));
    }
}

/// Law: encoding rasterised runs directly gives the PW0 encoding of the layer
/// mask they rasterise to, for layers of at most `u32::MAX` pixels whose runs
/// are all non-empty: the runs are cut to the layer, and pixels after the
/// last run are black; except where that black padding follows a last run
/// that is itself black, which the direct encoding writes as a run of its
/// own.
pub proof fn law_rle_matches_mask(runs: Seq<RleRun>, total: nat)
    requires
        forall|k: int| 0 <= k < runs.len() ==> #[trigger] runs[k].length > 0,
        total <= u32::MAX,
        rle_total(runs) >= total || runs.len() == 0 || colour_of(runs.last().value) != 0,
    ensures
        pw0_rle_encoding(runs, total) == pw0_encoding(layer_mask(runs, total)),
{
    if rle_total(runs) <= total {
        lemma_rle_matches_padded_mask(runs, total);
        if rle_total(runs) == total {
            lemma_expand_len(runs);
            assert(expand_runs(runs).take(total as int) =~= expand_runs(runs));
            assert(expand_runs(runs) + Seq::new(0nat, |_k: int| 0u8) =~= expand_runs(runs));
        }
    } else {
        let cut = cut_runs(runs, total);
        lemma_cut_runs(runs, total);
        lemma_clipped_all(cut, total);
        lemma_rle_matches_padded_mask(cut, total);
        assert(expand_runs(cut) + Seq::new(0nat, |_k: int| 0u8) =~= expand_runs(cut));
    }
}

/// Law: the direct encoding of a layer given as non-empty runs decodes to
/// exactly `total` pixels, at most `u32::MAX` of them: the colours of the
/// runs cut to the layer, then black for every pixel that no run covers,
/// whatever the colour of the last run.
pub proof fn law_rle_encoding_decodes_to_layer(runs: Seq<RleRun>, total: nat)
    requires
        forall|k: int| 0 <= k < runs.len() ==> #[trigger] runs[k].length > 0,
        total <= u32::MAX,
    ensures
        pw0_decoding(pw0_rle_encoding(runs, total)) == Some(colours(layer_mask(runs, total))),
        pw0_decoding(pw0_rle_encoding(runs, total))->Some_0.len() == total,
{
    let cut = cut_runs(runs, total);
    lemma_cut_runs(runs, total);
    lemma_expand_len(runs);
    lemma_expand_len(cut);
    lemma_pieces_total_of(cut);
    lemma_runs_of_expansion(cut);
    let ecut = expand_runs(cut);
    let cs = colours(ecut);
    let rs = colour_runs(cs);
    assert forall|k: int| 0 <= k < cs.len() implies #[trigger] cs[k] < 16 by {}
    lemma_colour_runs_below_16(cs);
    lemma_encode_runs_decode(rs);
    law_colour_runs_are_maximal(cs);
    let covered = rle_total(cut);
    let pad = (total - covered) as nat;
    assert((total - pieces_total(clipped_runs(runs, total))) % 0x1_0000_0000 == pad);
    lemma_run_bytes_decode(0, pad);
    lemma_decoding_concat(encode_runs(rs), run_bytes(0, pad));
    let zeros = Seq::new(pad, |_k: int| 0u8);
    if rle_total(runs) >= total {
        assert(ecut =~= layer_mask(runs, total));
        assert(cs + zeros =~= cs);
    } else {
        assert(ecut =~= expand_runs(runs));
        assert(colours(layer_mask(runs, total)) =~= cs + zeros);
    }
}

} // verus!
