//! The module grid: structural pattern placement, zigzag codeword layout,
//! data masking and penalty scoring, assembled by `Matrix::new`.
use vstd::prelude::*;
use vstd::arithmetic::div_mod::{lemma_fundamental_div_mod, lemma_fundamental_div_mod_converse};
use crate::bits::byte_bit;
use crate::encode::{format_info, spec_format_info, spec_version_info, version_info};
use crate::qrcode::{ecl_index, mask_index, mask_of_index, spec_ecl_index, spec_mask_index,
    spec_mask_of, Mask, QrError, Version, ECL};

verus! {

/// One grid cell: its structural role paired with its dark/light state.
/// `Unset` is the state of a cell no placement phase has claimed yet.
#[derive(Clone, Copy, PartialEq, Eq, Structural, Debug)]
pub enum Module {
    DataOFF,
    DataON,
    FinderOFF,
    FinderON,
    AlignmentOFF,
    AlignmentON,
    TimingOFF,
    TimingON,
    FormatOFF,
    FormatON,
    VersionOFF,
    VersionON,
    Separator,
    Unset,
}

/// Whether the module renders dark. Separators and unset cells are light.
pub open spec fn is_dark(m: Module) -> bool {
    match m {
        Module::DataON => true,
        Module::FinderON => true,
        Module::AlignmentON => true,
        Module::TimingON => true,
        Module::FormatON => true,
        Module::VersionON => true,
        _ => false,
    }
}

/// Whether the cell belongs to the data region.
pub open spec fn is_data(m: Module) -> bool {
    m == Module::DataON || m == Module::DataOFF
}

/// The data module carrying a given bit.
pub open spec fn data_module(b: bool) -> Module {
    if b {
        Module::DataON
    } else {
        Module::DataOFF
    }
}

/// The final interleaved codeword bytes, tagged with the version and
/// level they were produced for.
pub struct Codewords {
    pub value: Vec<u8>,
    pub version: Version,
    pub ecl: ECL,
}

/// The finished (or under-construction) symbol grid, row-major with index
/// `x * width + y`, plus the parameters that shaped it.
pub struct Matrix {
    pub value: Vec<Module>,
    pub width: usize,
    pub version: Version,
    pub ecl: ECL,
    pub mask: Mask,
}

// ---------------------------------------------------------------------
// Structural overlays: each placement phase is a partial function from
// cell coordinates to the module it stamps there.
// ---------------------------------------------------------------------
/// The 7x7 finder ring: dark border, light inner ring, dark 3x3 core.
pub open spec fn finder_ring(dx: int, dy: int) -> Module {
    if dx == 0 || dx == 6 || dy == 0 || dy == 6 || (2 <= dx <= 4 && 2 <= dy <= 4) {
        Module::FinderON
    } else {
        Module::FinderOFF
    }
}

/// Finder patterns at the three non-bottom-right corners, each with its
/// one-module separator border.
pub open spec fn finder_overlay(w: int, x: int, y: int) -> Option<Module> {
    if 0 <= x <= 7 && 0 <= y <= 7 {
        if x == 7 || y == 7 {
            Some(Module::Separator)
        } else {
            Some(finder_ring(x, y))
        }
    } else if 0 <= x <= 7 && w - 8 <= y < w {
        if x == 7 || y == w - 8 {
            Some(Module::Separator)
        } else {
            Some(finder_ring(x, y - (w - 7)))
        }
    } else if w - 8 <= x < w && 0 <= y <= 7 {
        if x == w - 8 || y == 7 {
            Some(Module::Separator)
        } else {
            Some(finder_ring(x - (w - 7), y))
        }
    } else {
        None
    }
}

/// Alternating timing dashes along row 6 and column 6 between the
/// finder patterns.
pub open spec fn timing_overlay(w: int, x: int, y: int) -> Option<Module> {
    if y == 6 && 8 <= x < w - 8 {
        Some(
            if (x - 8) % 2 == 0 {
                Module::TimingON
            } else {
                Module::TimingOFF
            },
        )
    } else if x == 6 && 8 <= y < w - 8 {
        Some(
            if (y - 8) % 2 == 0 {
                Module::TimingON
            } else {
                Module::TimingOFF
            },
        )
    } else {
        None
    }
}

/// Bit index of the format copy that runs around the top-left finder,
/// skipping the timing row and column; -1 off that run.
pub open spec fn format_index_a(w: int, x: int, y: int) -> int {
    if x == 8 && 0 <= y <= 5 {
        y
    } else if x == 8 && y == 7 {
        6
    } else if x == 8 && y == 8 {
        7
    } else if y == 8 && x == 7 {
        8
    } else if y == 8 && 0 <= x <= 5 {
        14 - x
    } else {
        -1
    }
}

/// Bit index of the format copy mirrored along the bottom and right
/// edges; -1 off that run.
pub open spec fn format_index_b(w: int, x: int, y: int) -> int {
    if y == 8 && w - 8 <= x < w {
        w - 1 - x
    } else if x == 8 && w - 7 <= y < w {
        y - (w - 15)
    } else {
        -1
    }
}

/// The format module carrying bit `i` of the format word.
pub open spec fn format_module(f: u32, i: int) -> Module {
    if (f >> (i as u32)) & 1 == 1 {
        Module::FormatON
    } else {
        Module::FormatOFF
    }
}

/// Both 15-bit format runs for word `f`, plus the always-dark module by
/// the bottom-left finder.
pub open spec fn format_overlay(w: int, f: u32, x: int, y: int) -> Option<Module> {
    if x == 8 && y == w - 8 {
        Some(Module::FormatON)
    } else if format_index_a(w, x, y) >= 0 {
        Some(format_module(f, format_index_a(w, x, y)))
    } else if format_index_b(w, x, y) >= 0 {
        Some(format_module(f, format_index_b(w, x, y)))
    } else {
        None
    }
}

/// The version module carrying bit `i` of the version word.
pub open spec fn version_module(info: u32, i: int) -> Module {
    if (info >> (i as u32)) & 1 == 1 {
        Module::VersionON
    } else {
        Module::VersionOFF
    }
}

/// The two mirrored 6x3 version-information blocks (versions 7 and up).
pub open spec fn version_overlay(w: int, info: u32, x: int, y: int) -> Option<Module> {
    if 0 <= x <= 5 && w - 11 <= y <= w - 9 {
        Some(version_module(info, x * 3 + (y - (w - 11))))
    } else if 0 <= y <= 5 && w - 11 <= x <= w - 9 {
        Some(version_module(info, y * 3 + (x - (w - 11))))
    } else {
        None
    }
}

/// Spacing of alignment-pattern centres for versions 7 through 40.
pub open spec fn spec_align_step(v: int) -> int {
    if v <= 13 {
        16 + 2 * (v - 7)
    } else if v == 14 {
        20
    } else if v == 15 {
        22
    } else if v == 16 {
        24
    } else if v == 17 {
        24
    } else if v == 18 {
        26
    } else if v == 19 {
        28
    } else if v == 20 {
        28
    } else if v == 21 {
        22
    } else if v == 22 {
        24
    } else if v == 23 {
        24
    } else if v == 24 {
        26
    } else if v == 25 {
        26
    } else if v == 26 {
        28
    } else if v == 27 {
        28
    } else if v == 28 {
        24
    } else if v == 29 {
        24
    } else if v == 30 {
        26
    } else if v == 31 {
        26
    } else if v == 32 {
        26
    } else if v == 33 {
        28
    } else if v == 34 {
        28
    } else if v == 35 {
        24
    } else if v == 36 {
        26
    } else if v == 37 {
        26
    } else if v == 38 {
        26
    } else if v == 39 {
        28
    } else {
        28
    }
}

/// Number of alignment centre coordinates per axis.
pub open spec fn align_count(v: int) -> int {
    v / 7 + 2
}

/// The `idx`-th alignment centre coordinate: 6 first, the grid edge
/// offset last, the rest stepping back from the last by the version's
/// spacing.
pub open spec fn align_pos(v: int, idx: int) -> int {
    let w = 4 * v + 17;
    if idx == 0 {
        6
    } else if idx == v / 7 + 1 {
        w - 7
    } else {
        w - 7 - (v / 7 + 1 - idx) * spec_align_step(v)
    }
}

/// First centre index whose 5-wide span covers coordinate `c`, from
/// `idx` up; -1 when none does.
pub open spec fn find_center(v: int, c: int, idx: int) -> int
    decreases v / 7 + 2 - idx,
{
    if idx < 0 || idx >= v / 7 + 2 {
        -1
    } else if align_pos(v, idx) - 2 <= c <= align_pos(v, idx) + 2 {
        idx
    } else {
        find_center(v, c, idx + 1)
    }
}

/// The 5x5 alignment ring: dark border, light ring, dark centre.
pub open spec fn align_module(dx: int, dy: int) -> Module {
    if dx == -2 || dx == 2 || dy == -2 || dy == 2 || (dx == 0 && dy == 0) {
        Module::AlignmentON
    } else {
        Module::AlignmentOFF
    }
}

/// Alignment patterns at every centre pair except the three that would
/// sit on finder corners (version 2 and up).
pub open spec fn alignment_overlay(v: int, x: int, y: int) -> Option<Module> {
    if v < 2 {
        None
    } else {
        let i = find_center(v, x, 0);
        let j = find_center(v, y, 0);
        let last = v / 7 + 1;
        if i >= 0 && j >= 0 && !((i == 0 && (j == 0 || j == last)) || (i == last && j == 0)) {
            Some(align_module(x - align_pos(v, i), y - align_pos(v, j)))
        } else {
            None
        }
    }
}

/// The whole structural grid before codeword placement: finder, reserved
/// format (placeholder word zero), timing, version, alignment, in the
/// order the builder stamps them, everything else `Unset`.
pub open spec fn base_module(v: int, x: int, y: int) -> Module {
    let w = 4 * v + 17;
    match alignment_overlay(v, x, y) {
        Some(m) => m,
        None => if v >= 7 && version_overlay(w, spec_version_info(v), x, y) is Some {
            version_overlay(w, spec_version_info(v), x, y)->Some_0
        } else {
            match timing_overlay(w, x, y) {
                Some(m) => m,
                None => match format_overlay(w, 0, x, y) {
                    Some(m) => m,
                    None => match finder_overlay(w, x, y) {
                        Some(m) => m,
                        None => Module::Unset,
                    },
                },
            }
        },
    }
}

impl Matrix {
    /// Grid sized to the version, with the tag fields consistent.
    pub open spec fn wf(self) -> bool {
        &&& self.version.valid()
        &&& self.width == self.version.spec_width()
        &&& self.value@.len() == self.width * self.width
    }

    /// Read the module at column `x`, row `y`.
    pub fn get(&self, x: usize, y: usize) -> (r: Module)
        requires
            self.wf(),
            x < self.width,
            y < self.width,
        ensures
            r == self.value@[x as int * self.width + y],
    {
        proof {
            lemma_grid_index(self.width as int, x as int, y as int);
        }
        let i = x * self.width + y;
        self.value[i]
    }

    /// Write the module at column `x`, row `y`.
    fn set(&mut self, x: usize, y: usize, module: Module)
        requires
            old(self).wf(),
            x < old(self).width,
            y < old(self).width,
        ensures
            final(self).wf(),
            final(self).width == old(self).width,
            final(self).version == old(self).version,
            final(self).ecl == old(self).ecl,
            final(self).mask == old(self).mask,
            final(self).value@ == old(self).value@.update(
                x as int * old(self).width + y,
                module,
            ),
    {
        proof {
            lemma_grid_index(self.width as int, x as int, y as int);
        }
        let i = x * self.width + y;
        self.value.set(i, module);
    }
}

/// Row-major indices stay inside the grid.
pub proof fn lemma_grid_index(w: int, x: int, y: int)
    requires
        0 <= x < w,
        0 <= y < w,
        w <= 177,
    ensures
        0 <= x * w + y < w * w,
        w * w <= 31329,
        (x * w + y) / w == x,
        (x * w + y) % w == y,
{
    assert(x * w + y < w * w && w * w <= 31329 && (x * w + y) / w == x && (x * w + y) % w == y)
        by (nonlinear_arith)
        requires
            0 <= x < w,
            0 <= y < w,
            w <= 177,
    ;
}

/// Finder overlay, computed.
fn finder_overlay_at(w: usize, x: usize, y: usize) -> (r: Option<Module>)
    requires
        21 <= w <= 177,
        x < w,
        y < w,
    ensures
        r == finder_overlay(w as int, x as int, y as int),
{
    if x <= 7 && y <= 7 {
        if x == 7 || y == 7 {
            Some(Module::Separator)
        } else {
            Some(finder_ring_at(x, y))
        }
    } else if x <= 7 && y + 8 >= w {
        if x == 7 || y + 8 == w {
            Some(Module::Separator)
        } else {
            Some(finder_ring_at(x, y - (w - 7)))
        }
    } else if x + 8 >= w && y <= 7 {
        if x + 8 == w || y == 7 {
            Some(Module::Separator)
        } else {
            Some(finder_ring_at(x - (w - 7), y))
        }
    } else {
        None
    }
}

/// Finder ring cell, computed.
fn finder_ring_at(dx: usize, dy: usize) -> (r: Module)
    ensures
        r == finder_ring(dx as int, dy as int),
{
    if dx == 0 || dx == 6 || dy == 0 || dy == 6 || (2 <= dx && dx <= 4 && 2 <= dy && dy <= 4) {
        Module::FinderON
    } else {
        Module::FinderOFF
    }
}

/// Timing overlay, computed.
fn timing_overlay_at(w: usize, x: usize, y: usize) -> (r: Option<Module>)
    requires
        21 <= w <= 177,
        x < w,
        y < w,
    ensures
        r == timing_overlay(w as int, x as int, y as int),
{
    if y == 6 && 8 <= x && x + 8 < w {
        Some(
            if (x - 8) % 2 == 0 {
                Module::TimingON
            } else {
                Module::TimingOFF
            },
        )
    } else if x == 6 && 8 <= y && y + 8 < w {
        Some(
            if (y - 8) % 2 == 0 {
                Module::TimingON
            } else {
                Module::TimingOFF
            },
        )
    } else {
        None
    }
}

/// Decomposing a linear grid index into its coordinates.
pub proof fn lemma_linear_index(w: int, idx: int)
    requires
        1 <= w <= 177,
        0 <= idx < w * w,
    ensures
        0 <= idx / w < w,
        0 <= idx % w < w,
        (idx / w) * w + idx % w == idx,
{
    assert(0 <= idx / w < w && 0 <= idx % w < w && (idx / w) * w + idx % w == idx)
        by (nonlinear_arith)
        requires
            1 <= w,
            0 <= idx < w * w,
    ;
}

/// The grid after stamping an overlay onto every cell it covers.
pub open spec fn overlaid(g: Seq<Module>, w: int, ov: spec_fn(int, int) -> Option<Module>) -> Seq<
    Module,
> {
    Seq::new(g.len(), |i: int| match ov(i / w, i % w) {
        Some(m) => m,
        None => g[i],
    })
}

impl Matrix {
    /// Stamp the three finder patterns and their separators.
    fn place_finder(&mut self)
        requires
            old(self).wf(),
        ensures
            final(self).wf(),
            final(self).width == old(self).width,
            final(self).version == old(self).version,
            final(self).ecl == old(self).ecl,
            final(self).mask == old(self).mask,
            final(self).value@ == overlaid(
                old(self).value@,
                old(self).width as int,
                |x: int, y: int| finder_overlay(old(self).width as int, x, y),
            ),
    {
        let w = self.width;
        let wsq = self.value.len();
        let ghost target = overlaid(
            old(self).value@,
            w as int,
            |x: int, y: int| finder_overlay(w as int, x, y),
        );
        for idx in 0..wsq
            invariant
                self.wf(),
                self.width == w,
                self.version == old(self).version,
                self.ecl == old(self).ecl,
                self.mask == old(self).mask,
                21 <= w <= 177,
                wsq == w * w,
                self.value@.len() == wsq,
                target == overlaid(
                    old(self).value@,
                    w as int,
                    |x: int, y: int| finder_overlay(w as int, x, y),
                ),
                target.len() == wsq,
                forall|i: int| 0 <= i < idx ==> self.value@[i] == target[i],
                forall|i: int| idx <= i < wsq ==> self.value@[i] == old(self).value@[i],
        {
            let x = idx / w;
            let y = idx % w;
            proof {
                lemma_linear_index(w as int, idx as int);
                lemma_grid_index(w as int, x as int, y as int);
            }
            match finder_overlay_at(w, x, y) {
                Some(m) => {
                    self.set(x, y, m);
                },
                None => {
                },
            }
        }
        proof {
            assert(self.value@ =~= target);
        }
    }

    /// Stamp the alternating timing dashes.
    fn place_timing(&mut self)
        requires
            old(self).wf(),
        ensures
            final(self).wf(),
            final(self).width == old(self).width,
            final(self).version == old(self).version,
            final(self).ecl == old(self).ecl,
            final(self).mask == old(self).mask,
            final(self).value@ == overlaid(
                old(self).value@,
                old(self).width as int,
                |x: int, y: int| timing_overlay(old(self).width as int, x, y),
            ),
    {
        let w = self.width;
        let wsq = self.value.len();
        let ghost target = overlaid(
            old(self).value@,
            w as int,
            |x: int, y: int| timing_overlay(w as int, x, y),
        );
        for idx in 0..wsq
            invariant
                self.wf(),
                self.width == w,
                self.version == old(self).version,
                self.ecl == old(self).ecl,
                self.mask == old(self).mask,
                21 <= w <= 177,
                wsq == w * w,
                self.value@.len() == wsq,
                target == overlaid(
                    old(self).value@,
                    w as int,
                    |x: int, y: int| timing_overlay(w as int, x, y),
                ),
                target.len() == wsq,
                forall|i: int| 0 <= i < idx ==> self.value@[i] == target[i],
                forall|i: int| idx <= i < wsq ==> self.value@[i] == old(self).value@[i],
        {
            let x = idx / w;
            let y = idx % w;
            proof {
                lemma_linear_index(w as int, idx as int);
                lemma_grid_index(w as int, x as int, y as int);
            }
            match timing_overlay_at(w, x, y) {
                Some(m) => {
                    self.set(x, y, m);
                },
                None => {
                },
            }
        }
        proof {
            assert(self.value@ =~= target);
        }
    }
}

/// Format module, computed.
fn format_module_at(f: u32, i: usize) -> (r: Module)
    requires
        i < 32,
    ensures
        r == format_module(f, i as int),
{
    if (f >> (i as u32)) & 1 == 1 {
        Module::FormatON
    } else {
        Module::FormatOFF
    }
}

/// Format overlay, computed.
fn format_overlay_at(w: usize, f: u32, x: usize, y: usize) -> (r: Option<Module>)
    requires
        21 <= w <= 177,
        x < w,
        y < w,
    ensures
        r == format_overlay(w as int, f, x as int, y as int),
{
    if x == 8 && y + 8 == w {
        Some(Module::FormatON)
    } else {
        let ia: usize = if x == 8 && y <= 5 {
            y
        } else if x == 8 && y == 7 {
            6
        } else if x == 8 && y == 8 {
            7
        } else if y == 8 && x == 7 {
            8
        } else if y == 8 && x <= 5 {
            14 - x
        } else {
            15
        };
        proof {
            assert(ia < 15 ==> ia == format_index_a(w as int, x as int, y as int));
            assert(ia == 15 ==> format_index_a(w as int, x as int, y as int) == -1);
        }
        if ia < 15 {
            Some(format_module_at(f, ia))
        } else {
            let ib: usize = if y == 8 && x + 8 >= w {
                w - 1 - x
            } else if x == 8 && y + 7 >= w {
                y - (w - 15)
            } else {
                15
            };
            proof {
                assert(ib < 15 ==> ib == format_index_b(w as int, x as int, y as int));
                assert(ib == 15 ==> format_index_b(w as int, x as int, y as int) == -1);
            }
            if ib < 15 {
                Some(format_module_at(f, ib))
            } else {
                None
            }
        }
    }
}

/// Version module, computed.
fn version_module_at(info: u32, i: usize) -> (r: Module)
    requires
        i < 32,
    ensures
        r == version_module(info, i as int),
{
    if (info >> (i as u32)) & 1 == 1 {
        Module::VersionON
    } else {
        Module::VersionOFF
    }
}

/// Version overlay, computed.
fn version_overlay_at(w: usize, info: u32, x: usize, y: usize) -> (r: Option<Module>)
    requires
        21 <= w <= 177,
        x < w,
        y < w,
    ensures
        r == version_overlay(w as int, info, x as int, y as int),
{
    if x <= 5 && y + 11 >= w && y + 9 <= w {
        Some(version_module_at(info, x * 3 + (y - (w - 11))))
    } else if y <= 5 && x + 11 >= w && x + 9 <= w {
        Some(version_module_at(info, y * 3 + (x - (w - 11))))
    } else {
        None
    }
}

/// A middle alignment centre never steps past the grid: its offset from
/// the far edge leaves at least the finder margin.
proof fn lemma_align_pos_in_range(v: int, idx: int)
    requires
        2 <= v <= 40,
        0 <= idx <= v / 7 + 1,
    ensures
        6 <= align_pos(v, idx) <= 4 * v + 10,
        1 <= idx <= v / 7 ==> (v / 7 + 1 - idx) * spec_align_step(v) <= 4 * v + 4,
{
    if 1 <= idx <= v / 7 {
        lemma_fundamental_div_mod(v, 7);
        assert(v >= 7);
        let k = v / 7 + 1 - idx;
        let step = spec_align_step(v);
        assert(16 <= step <= 28);
        assert(k * step <= (v / 7) * step) by (nonlinear_arith)
            requires
                1 <= k <= v / 7,
                step >= 0,
        ;
        if v <= 13 {
            assert(v / 7 == 1);
            assert((v / 7) * step == step);
        } else if v <= 20 {
            assert(v / 7 == 2);
            assert((v / 7) * step == 2 * step);
        } else if v <= 27 {
            assert(v / 7 == 3);
            assert((v / 7) * step == 3 * step);
        } else if v <= 34 {
            assert(v / 7 == 4);
            assert((v / 7) * step == 4 * step);
        } else {
            assert(v / 7 == 5);
            assert((v / 7) * step == 5 * step);
        }
        assert(k * step >= 0) by (nonlinear_arith)
            requires
                k >= 0,
                step >= 0,
        ;
    }
}

/// Alignment centre spacing, computed.
fn align_step(v: usize) -> (r: usize)
    requires
        7 <= v <= 40,
    ensures
        r == spec_align_step(v as int),
        16 <= r <= 28,
{
    if v <= 13 {
        16 + 2 * (v - 7)
    } else {
        match v {
            14 => 20,
            15 => 22,
            16 | 17 => 24,
            18 => 26,
            19 | 20 => 28,
            21 => 22,
            22 | 23 => 24,
            24 | 25 => 26,
            26 | 27 => 28,
            28 | 29 => 24,
            30 | 31 | 32 => 26,
            33 | 34 => 28,
            35 => 24,
            36 | 37 | 38 => 26,
            _ => 28,
        }
    }
}

/// Alignment centre coordinate, computed.
fn align_pos_at(v: usize, idx: usize) -> (r: usize)
    requires
        2 <= v <= 40,
        idx < v / 7 + 2,
    ensures
        r == align_pos(v as int, idx as int),
        6 <= r <= 4 * v + 10,
{
    proof {
        lemma_align_pos_in_range(v as int, idx as int);
    }
    if idx == 0 {
        6
    } else if idx == v / 7 + 1 {
        4 * v + 10
    } else {
        let step = align_step(v);
        let k = v / 7 + 1 - idx;
        4 * v + 10 - k * step
    }
}

/// First alignment centre covering a coordinate, computed.
fn find_center_at(v: usize, c: usize) -> (r: Option<usize>)
    requires
        2 <= v <= 40,
        c <= 177,
    ensures
        match r {
            Some(i) => i < v / 7 + 2 && find_center(v as int, c as int, 0) == i as int,
            None => find_center(v as int, c as int, 0) == -1,
        },
{
    let count = v / 7 + 2;
    for idx in 0..count
        invariant
            2 <= v <= 40,
            c <= 177,
            count == v / 7 + 2,
            find_center(v as int, c as int, 0) == find_center(v as int, c as int, idx as int),
    {
        let pos = align_pos_at(v, idx);
        if pos <= c + 2 && c <= pos + 2 {
            return Some(idx);
        }
    }
    None
}

/// Alignment overlay, computed.
fn alignment_overlay_at(v: usize, x: usize, y: usize) -> (r: Option<Module>)
    requires
        1 <= v <= 40,
        x < 4 * v + 17,
        y < 4 * v + 17,
    ensures
        r == alignment_overlay(v as int, x as int, y as int),
{
    if v < 2 {
        return None;
    }
    let ci = find_center_at(v, x);
    let cj = find_center_at(v, y);
    match (ci, cj) {
        (Some(i), Some(j)) => {
            let last = v / 7 + 1;
            if (i == 0 && (j == 0 || j == last)) || (i == last && j == 0) {
                None
            } else {
                let px = align_pos_at(v, i);
                let py = align_pos_at(v, j);
                let on = px == x + 2 || x == px + 2 || py == y + 2 || y == py + 2 || (x == px && y
                    == py);
                Some(
                    if on {
                        Module::AlignmentON
                    } else {
                        Module::AlignmentOFF
                    },
                )
            }
        },
        _ => None,
    }
}

impl Matrix {
    /// Stamp both copies of the 15-bit format word `f` and the fixed dark
    /// module.
    fn stamp_format(&mut self, f: u32)
        requires
            old(self).wf(),
        ensures
            final(self).wf(),
            final(self).width == old(self).width,
            final(self).version == old(self).version,
            final(self).ecl == old(self).ecl,
            final(self).mask == old(self).mask,
            final(self).value@ == overlaid(
                old(self).value@,
                old(self).width as int,
                |x: int, y: int| format_overlay(old(self).width as int, f, x, y),
            ),
    {
        let w = self.width;
        let wsq = self.value.len();
        let ghost target = overlaid(old(self).value@, w as int, |x: int, y: int| format_overlay(w as int, f, x, y));
        for idx in 0..wsq
            invariant
                self.wf(),
                self.width == w,
                self.version == old(self).version,
                self.ecl == old(self).ecl,
                self.mask == old(self).mask,
                21 <= w <= 177,
                wsq == w * w,
                self.value@.len() == wsq,
                target == overlaid(old(self).value@, w as int, |x: int, y: int| format_overlay(w as int, f, x, y)),
                target.len() == wsq,
                forall|i: int| 0 <= i < idx ==> self.value@[i] == target[i],
                forall|i: int| idx <= i < wsq ==> self.value@[i] == old(self).value@[i],
        {
            let x = idx / w;
            let y = idx % w;
            proof {
                lemma_linear_index(w as int, idx as int);
                lemma_grid_index(w as int, x as int, y as int);
            }
            match format_overlay_at(w, f, x, y) {
                Some(m) => {
                    self.set(x, y, m);
                },
                None => {
                },
            }
        }
        proof {
            assert(self.value@ =~= target);
        }
    }

    /// Re-stamp the format information for the current level and mask.
    fn place_format(&mut self)
        requires
            old(self).wf(),
        ensures
            final(self).wf(),
            final(self).width == old(self).width,
            final(self).version == old(self).version,
            final(self).ecl == old(self).ecl,
            final(self).mask == old(self).mask,
            final(self).value@ == overlaid(
                old(self).value@,
                old(self).width as int,
                |x: int, y: int| format_overlay(
                    old(self).width as int,
                    spec_format_info(spec_ecl_index(old(self).ecl), spec_mask_index(old(self).mask)),
                    x,
                    y,
                ),
            ),
    {
        let table = format_info();
        let e = ecl_index(self.ecl);
        let m = mask_index(self.mask);
        let f = table[e][m];
        self.stamp_format(f);
    }

    /// Stamp the two version-information blocks (versions 7 and up; a
    /// no-op below that).
    fn place_version(&mut self)
        requires
            old(self).wf(),
        ensures
            final(self).wf(),
            final(self).width == old(self).width,
            final(self).version == old(self).version,
            final(self).ecl == old(self).ecl,
            final(self).mask == old(self).mask,
            final(self).value@ == if old(self).version.0 >= 7 {
                overlaid(
                    old(self).value@,
                    old(self).width as int,
                    |x: int, y: int| version_overlay(
                        old(self).width as int,
                        spec_version_info(old(self).version.0 as int),
                        x,
                        y,
                    ),
                )
            } else {
                old(self).value@
            },
    {
        if self.version.0 < 7 {
            return;
        }
        let table = version_info();
        let info = table[self.version.0];
        let w = self.width;
        let wsq = self.value.len();
        let ghost target = overlaid(old(self).value@, w as int, |x: int, y: int| version_overlay(w as int, spec_version_info(old(self).version.0 as int), x, y));
        for idx in 0..wsq
            invariant
                self.wf(),
                self.width == w,
                self.version == old(self).version,
                self.ecl == old(self).ecl,
                self.mask == old(self).mask,
                21 <= w <= 177,
                wsq == w * w,
                self.value@.len() == wsq,
                target == overlaid(old(self).value@, w as int, |x: int, y: int| version_overlay(w as int, spec_version_info(old(self).version.0 as int), x, y)),
                target.len() == wsq,
                forall|i: int| 0 <= i < idx ==> self.value@[i] == target[i],
                forall|i: int| idx <= i < wsq ==> self.value@[i] == old(self).value@[i],
                info == spec_version_info(old(self).version.0 as int),
        {
            let x = idx / w;
            let y = idx % w;
            proof {
                lemma_linear_index(w as int, idx as int);
                lemma_grid_index(w as int, x as int, y as int);
            }
            match version_overlay_at(w, info, x, y) {
                Some(m) => {
                    self.set(x, y, m);
                },
                None => {
                },
            }
        }
        proof {
            assert(self.value@ =~= target);
        }
    }

    /// Stamp the alignment patterns (versions 2 and up; a no-op for
    /// version 1, whose overlay is empty).
    fn place_alignment(&mut self)
        requires
            old(self).wf(),
        ensures
            final(self).wf(),
            final(self).width == old(self).width,
            final(self).version == old(self).version,
            final(self).ecl == old(self).ecl,
            final(self).mask == old(self).mask,
            final(self).value@ == overlaid(
                old(self).value@,
                old(self).width as int,
                |x: int, y: int| alignment_overlay(old(self).version.0 as int, x, y),
            ),
    {
        let v = self.version.0;
        if v == 1 {
            proof {
                assert(self.value@ =~= overlaid(
                    old(self).value@,
                    old(self).width as int,
                    |x: int, y: int| alignment_overlay(old(self).version.0 as int, x, y),
                ));
            }
            return;
        }
        let w = self.width;
        let wsq = self.value.len();
        let ghost target = overlaid(old(self).value@, w as int, |x: int, y: int| alignment_overlay(old(self).version.0 as int, x, y));
        for idx in 0..wsq
            invariant
                self.wf(),
                self.width == w,
                self.version == old(self).version,
                self.ecl == old(self).ecl,
                self.mask == old(self).mask,
                21 <= w <= 177,
                wsq == w * w,
                self.value@.len() == wsq,
                target == overlaid(old(self).value@, w as int, |x: int, y: int| alignment_overlay(old(self).version.0 as int, x, y)),
                target.len() == wsq,
                forall|i: int| 0 <= i < idx ==> self.value@[i] == target[i],
                forall|i: int| idx <= i < wsq ==> self.value@[i] == old(self).value@[i],
                v == old(self).version.0,
                21 <= 4 * v + 17 <= 177,
        {
            let x = idx / w;
            let y = idx % w;
            proof {
                lemma_linear_index(w as int, idx as int);
                lemma_grid_index(w as int, x as int, y as int);
            }
            match alignment_overlay_at(v, x, y) {
                Some(m) => {
                    self.set(x, y, m);
                },
                None => {
                },
            }
        }
        proof {
            assert(self.value@ =~= target);
        }
    }
}

// ---------------------------------------------------------------------
// Codeword placement: the boustrophedon traversal visits two-column
// strips right to left, alternating upward and downward, skipping the
// vertical timing column entirely.
// ---------------------------------------------------------------------
/// Column visited at step `t` of the traversal.
pub open spec fn zz_x(w: int, t: int) -> int {
    let p = t / (2 * w);
    let hi = if p < (w - 7) / 2 {
        w - 1 - 2 * p
    } else {
        w - 2 - 2 * p
    };
    hi - t % 2
}

/// Row visited at step `t` of the traversal.
pub open spec fn zz_y(w: int, t: int) -> int {
    let p = t / (2 * w);
    let r = (t / 2) % w;
    if p % 2 == 0 {
        w - 1 - r
    } else {
        r
    }
}

/// Grid and bit cursor after the first `t` traversal steps: each step
/// fills a still-unset cell with the next codeword bit, high bit of each
/// byte first, while bytes remain.
pub open spec fn fill_state(g0: Seq<Module>, w: int, bytes: Seq<u8>, t: int) -> (Seq<Module>, nat)
    decreases t,
{
    if t <= 0 {
        (g0, 0nat)
    } else {
        let prev = fill_state(g0, w, bytes, t - 1);
        let idx = zz_x(w, t - 1) * w + zz_y(w, t - 1);
        if prev.0[idx] == Module::Unset && prev.1 / 8 < bytes.len() {
            (
                prev.0.update(idx, data_module(byte_bit(bytes[prev.1 as int / 8], prev.1 % 8))),
                (prev.1 + 1) as nat,
            )
        } else {
            prev
        }
    }
}

/// Every traversal step lands inside the grid, off the timing column.
proof fn lemma_zigzag_bounds(w: int, t: int)
    requires
        21 <= w <= 177,
        w % 2 == 1,
        0 <= t < w * (w - 1),
    ensures
        0 <= zz_x(w, t) < w,
        0 <= zz_y(w, t) < w,
        2 * (t / (2 * w)) <= w - 3,
{
    let p = t / (2 * w);
    let k = (w - 1) / 2;
    assert(w - 1 == 2 * k);
    assert(t < (2 * w) * k) by (nonlinear_arith)
        requires
            t < w * (w - 1),
            w - 1 == 2 * k,
            w >= 1,
    ;
    assert(p < k) by (nonlinear_arith)
        requires
            0 <= t,
            t < (2 * w) * k,
            w >= 1,
            p == t / (2 * w),
    ;
    assert(0 <= p) by (nonlinear_arith)
        requires
            0 <= t,
            21 <= w,
            p == t / (2 * w),
    ;
    assert(0 <= t % 2 < 2);
    assert(0 <= (t / 2) % w < w);
}

/// No-cell-left-unset: the grid has been fully claimed.
pub open spec fn no_unset(g: Seq<Module>) -> bool {
    forall|i: int| 0 <= i < g.len() ==> g[i] != Module::Unset
}

impl Matrix {
    /// Walk the zigzag path and drop one codeword bit into every cell
    /// still unset, most significant bit of each byte first; returns how
    /// many bits were consumed.
    fn place_data(&mut self, codewords: &Codewords) -> (used: usize)
        requires
            old(self).wf(),
        ensures
            final(self).wf(),
            final(self).width == old(self).width,
            final(self).version == old(self).version,
            final(self).ecl == old(self).ecl,
            final(self).mask == old(self).mask,
            final(self).value@ == fill_state(
                old(self).value@,
                old(self).width as int,
                codewords.value@,
                old(self).width * (old(self).width - 1),
            ).0,
            used as nat == fill_state(
                old(self).value@,
                old(self).width as int,
                codewords.value@,
                old(self).width * (old(self).width - 1),
            ).1,
            used <= 31329,
    {
        let w = self.width;
        let wsq = self.value.len();
        proof {
            assert(w % 2 == 1);
            assert(w * w >= w && w * w - w == w * (w - 1) && w * w <= 31329) by (nonlinear_arith)
                requires
                    1 <= w <= 177,
            ;
        }
        let n_t = wsq - w;
        let len = codewords.value.len();
        let mut used: usize = 0;
        for t in 0..n_t
            invariant
                self.wf(),
                self.width == w,
                self.version == old(self).version,
                self.ecl == old(self).ecl,
                self.mask == old(self).mask,
                21 <= w <= 177,
                w % 2 == 1,
                n_t == w * (w - 1),
                n_t == w * w - w,
                n_t <= 31329,
                len == codewords.value@.len(),
                used <= t,
                self.value@ == fill_state(
                    old(self).value@,
                    w as int,
                    codewords.value@,
                    t as int,
                ).0,
                used as nat == fill_state(
                    old(self).value@,
                    w as int,
                    codewords.value@,
                    t as int,
                ).1,
        {
            proof {
                lemma_zigzag_bounds(w as int, t as int);
            }
            let p = t / (2 * w);
            let hi = if p < (w - 7) / 2 {
                w - 1 - 2 * p
            } else {
                w - 2 - 2 * p
            };
            let x = hi - t % 2;
            let rr = (t / 2) % w;
            let y = if p % 2 == 0 {
                w - 1 - rr
            } else {
                rr
            };
            proof {
                assert(x == zz_x(w as int, t as int));
                assert(y == zz_y(w as int, t as int));
                lemma_grid_index(w as int, x as int, y as int);
            }
            let m = self.get(x, y);
            if matches!(m, Module::Unset) {
                if used / 8 < len {
                    let byte = codewords.value[used / 8];
                    let sh: u8 = (7 - (used % 8)) as u8;
                    let bit = (byte >> sh) & 1;
                    proof {
                        assert((bit == 1) == byte_bit(
                            codewords.value@[used as int / 8],
                            used as nat % 8,
                        ));
                    }
                    self.set(
                        x,
                        y,
                        if bit == 1 {
                            Module::DataON
                        } else {
                            Module::DataOFF
                        },
                    );
                    used = used + 1;
                }
            }
        }
        used
    }

    /// True when some cell is still unset.
    fn has_unset(&self) -> (b: bool)
        ensures
            b == !no_unset(self.value@),
    {
        let n = self.value.len();
        for i in 0..n
            invariant
                n == self.value@.len(),
                forall|j: int| 0 <= j < i ==> self.value@[j] != Module::Unset,
        {
            if matches!(self.value[i], Module::Unset) {
                return true;
            }
        }
        false
    }
}

// ---------------------------------------------------------------------
// Masking: each mask index names a boolean predicate on coordinates;
// applying a mask flips exactly the data modules the predicate selects.
// ---------------------------------------------------------------------
/// The standard's eight mask predicates.
pub open spec fn mask_bit(mask: Mask, x: int, y: int) -> bool {
    match mask {
        Mask::M0 => (x + y) % 2 == 0,
        Mask::M1 => x % 2 == 0,
        Mask::M2 => y % 3 == 0,
        Mask::M3 => (x + y) % 3 == 0,
        Mask::M4 => ((x / 2) + (y / 3)) % 2 == 0,
        Mask::M5 => (x * y) % 2 + (x * y) % 3 == 0,
        Mask::M6 => ((x * y) % 2 + (x * y) % 3) % 2 == 0,
        Mask::M7 => ((x + y) % 2 + (x * y) % 3) % 2 == 0,
    }
}

/// One cell under a mask: data modules flip where the predicate holds,
/// every other cell is untouched.
pub open spec fn mask_cell(m: Module, flip: bool) -> Module {
    if is_data(m) {
        data_module((m == Module::DataON) != flip)
    } else {
        m
    }
}

/// The whole grid under a mask.
pub open spec fn mask_grid(g: Seq<Module>, w: int, mask: Mask) -> Seq<Module> {
    Seq::new(g.len(), |i: int| mask_cell(g[i], mask_bit(mask, i / w, i % w)))
}

/// Mask predicate, computed.
fn mask_bit_at(mask: Mask, x: usize, y: usize) -> (b: bool)
    requires
        x < 177,
        y < 177,
    ensures
        b == mask_bit(mask, x as int, y as int),
{
    proof {
        assert(x * y <= 31329) by (nonlinear_arith)
            requires
                x < 177,
                y < 177,
        ;
    }
    match mask {
        Mask::M0 => (x + y) % 2 == 0,
        Mask::M1 => x % 2 == 0,
        Mask::M2 => y % 3 == 0,
        Mask::M3 => (x + y) % 3 == 0,
        Mask::M4 => ((x / 2) + (y / 3)) % 2 == 0,
        Mask::M5 => (x * y) % 2 + (x * y) % 3 == 0,
        Mask::M6 => ((x * y) % 2 + (x * y) % 3) % 2 == 0,
        Mask::M7 => ((x + y) % 2 + (x * y) % 3) % 2 == 0,
    }
}

impl Matrix {
    /// Flip every data module selected by the current mask's predicate.
    /// Applying the same mask twice restores the grid.
    fn apply_mask(&mut self)
        requires
            old(self).wf(),
        ensures
            final(self).wf(),
            final(self).width == old(self).width,
            final(self).version == old(self).version,
            final(self).ecl == old(self).ecl,
            final(self).mask == old(self).mask,
            final(self).value@ == mask_grid(
                old(self).value@,
                old(self).width as int,
                old(self).mask,
            ),
    {
        let w = self.width;
        let wsq = self.value.len();
        let ghost target = mask_grid(old(self).value@, w as int, old(self).mask);
        for idx in 0..wsq
            invariant
                self.wf(),
                self.width == w,
                self.version == old(self).version,
                self.ecl == old(self).ecl,
                self.mask == old(self).mask,
                21 <= w <= 177,
                wsq == w * w,
                self.value@.len() == wsq,
                target == mask_grid(old(self).value@, w as int, old(self).mask),
                target.len() == wsq,
                forall|i: int| 0 <= i < idx ==> self.value@[i] == target[i],
                forall|i: int| idx <= i < wsq ==> self.value@[i] == old(self).value@[i],
        {
            let x = idx / w;
            let y = idx % w;
            proof {
                lemma_linear_index(w as int, idx as int);
                lemma_grid_index(w as int, x as int, y as int);
            }
            let m = self.get(x, y);
            let data = matches!(m, Module::DataON) || matches!(m, Module::DataOFF);
            if data {
                let flip = mask_bit_at(self.mask, x, y);
                let dark = matches!(m, Module::DataON);
                self.set(
                    x,
                    y,
                    if dark != flip {
                        Module::DataON
                    } else {
                        Module::DataOFF
                    },
                );
            }
        }
        proof {
            assert(self.value@ =~= target);
        }
    }
}

/// Applying a mask is an involution: the same mask twice gives back the
/// grid it started from, so the builder's undo-then-reapply loop leaves
/// exactly one masking pass in the finished symbol.
pub proof fn lemma_mask_involution(g: Seq<Module>, w: int, mask: Mask)
    ensures
        mask_grid(mask_grid(g, w, mask), w, mask) == g,
{
    assert(mask_grid(mask_grid(g, w, mask), w, mask) =~= g);
}

// ---------------------------------------------------------------------
// Penalty scoring: four heuristics over the finished candidate grid.
// ---------------------------------------------------------------------
/// Number of dark modules among the first `upto` cells.
pub open spec fn dark_count(g: Seq<Module>, upto: int) -> int
    decreases upto,
{
    if upto <= 0 {
        0
    } else {
        dark_count(g, upto - 1) + (if is_dark(g[upto - 1]) {
            1int
        } else {
            0int
        })
    }
}

/// Proportion penalty: ten points per five-percent step of deviation of
/// the dark share from one half.
pub open spec fn proportion_score(g: Seq<Module>, w: int) -> int {
    let percent = dark_count(g, w * w) * 100 / (w * w);
    let dev = if percent < 50 {
        50 - percent
    } else {
        percent - 50
    };
    10 * (dev / 5)
}

/// Three points when the 2x2 block whose top-left corner sits at linear
/// index `idx` is uniformly dark or uniformly light.
pub open spec fn block_points(g: Seq<Module>, w: int, idx: int) -> int {
    let x = idx / w;
    let y = idx % w;
    if x < w - 1 && y < w - 1 && is_dark(g[idx]) == is_dark(g[idx + w]) && is_dark(g[idx])
        == is_dark(g[idx + 1]) && is_dark(g[idx]) == is_dark(g[idx + w + 1]) {
        3
    } else {
        0
    }
}

/// Block penalty accumulated over the first `upto` linear indices.
pub open spec fn blocks_upto(g: Seq<Module>, w: int, upto: int) -> int
    decreases upto,
{
    if upto <= 0 {
        0
    } else {
        blocks_upto(g, w, upto - 1) + block_points(g, w, upto - 1)
    }
}

/// Length of the same-colour run that ends at position `j` of a line.
pub open spec fn run_len(s: Seq<bool>, j: int) -> int
    decreases j,
{
    if j <= 0 {
        1
    } else if s[j] == s[j - 1] {
        run_len(s, j - 1) + 1
    } else {
        1
    }
}

/// Streak penalty over the first `upto` positions: three points when a
/// run reaches five, one more for every further module.
pub open spec fn streak_score(s: Seq<bool>, upto: int) -> int
    decreases upto,
{
    if upto <= 0 {
        0
    } else {
        streak_score(s, upto - 1) + (if run_len(s, upto - 1) == 5 {
            3int
        } else if run_len(s, upto - 1) > 5 {
            1int
        } else {
            0int
        })
    }
}

/// The dark/light shape of a finder pattern read along a line, light
/// quiet run first.
pub open spec fn pattern_fwd() -> Seq<bool> {
    seq![false, false, false, false, true, false, true, true, true, false, true]
}

/// The same shape read the other way.
pub open spec fn pattern_rev() -> Seq<bool> {
    seq![true, false, true, true, true, false, true, false, false, false, false]
}

/// The eleven line positions starting at `j` spell out `p`.
pub open spec fn window_matches(s: Seq<bool>, j: int, p: Seq<bool>) -> bool {
    forall|k: int| 0 <= k < p.len() ==> s[j + k] == p[k]
}

/// How many of the first `upto` window starts spell out `p`.
pub open spec fn pattern_count(s: Seq<bool>, upto: int, p: Seq<bool>) -> int
    decreases upto,
{
    if upto <= 0 {
        0
    } else {
        pattern_count(s, upto - 1, p) + (if window_matches(s, upto - 1, p) {
            1int
        } else {
            0int
        })
    }
}

/// Full penalty of one line: streaks plus forty points per finder
/// look-alike window in either reading direction.
pub open spec fn line_score(s: Seq<bool>) -> int {
    streak_score(s, s.len() as int) + 40 * pattern_count(s, s.len() - 10, pattern_fwd()) + 40
        * pattern_count(s, s.len() - 10, pattern_rev())
}

/// The line with fixed first coordinate `x`.
pub open spec fn line_a(g: Seq<Module>, w: int, x: int) -> Seq<bool> {
    Seq::new(w as nat, |j: int| is_dark(g[x * w + j]))
}

/// The line with fixed second coordinate `y`.
pub open spec fn line_b(g: Seq<Module>, w: int, y: int) -> Seq<bool> {
    Seq::new(w as nat, |j: int| is_dark(g[j * w + y]))
}

/// Line penalties summed over the first `upto` lines of one direction.
pub open spec fn lines_score(g: Seq<Module>, w: int, upto: int, cols: bool) -> int
    decreases upto,
{
    if upto <= 0 {
        0
    } else {
        lines_score(g, w, upto - 1, cols) + line_score(
            if cols {
                line_a(g, w, upto - 1)
            } else {
                line_b(g, w, upto - 1)
            },
        )
    }
}

/// The whole penalty: proportion, blocks, and the line heuristics
/// scanned in both directions.
pub open spec fn score_spec(g: Seq<Module>, w: int) -> int {
    proportion_score(g, w) + blocks_upto(g, w, w * w) + lines_score(g, w, w, true) + lines_score(
        g,
        w,
        w,
        false,
    )
}

/// Streak penalties grow by at most three per position.
proof fn lemma_streak_bound(s: Seq<bool>, upto: int)
    ensures
        0 <= streak_score(s, upto) <= 3 * (if upto > 0 {
            upto
        } else {
            0
        }),
    decreases upto,
{
    if upto > 0 {
        lemma_streak_bound(s, upto - 1);
    }
}

/// Window counts grow by at most one per position.
proof fn lemma_pattern_bound(s: Seq<bool>, upto: int, p: Seq<bool>)
    ensures
        0 <= pattern_count(s, upto, p) <= (if upto > 0 {
            upto
        } else {
            0
        }),
    decreases upto,
{
    if upto > 0 {
        lemma_pattern_bound(s, upto - 1, p);
    }
}

/// A line of length at most 177 scores at most 15000.
proof fn lemma_line_score_bound(s: Seq<bool>)
    requires
        s.len() <= 177,
    ensures
        0 <= line_score(s) <= 15000,
{
    lemma_streak_bound(s, s.len() as int);
    lemma_pattern_bound(s, s.len() - 10, pattern_fwd());
    lemma_pattern_bound(s, s.len() - 10, pattern_rev());
}

/// Whether the module at (x, y) is dark, computed.
fn module_is_dark(m: Module) -> (b: bool)
    ensures
        b == is_dark(m),
{
    matches!(
        m,
        Module::DataON | Module::FinderON | Module::AlignmentON | Module::TimingON
            | Module::FormatON | Module::VersionON
    )
}

/// Dark cell of a scan line, computed: `cols` reads along a fixed first
/// coordinate, otherwise along a fixed second coordinate.
fn line_get(matrix: &Matrix, i: usize, j: usize, cols: bool) -> (b: bool)
    requires
        matrix.wf(),
        i < matrix.width,
        j < matrix.width,
    ensures
        b == (if cols {
            line_a(matrix.value@, matrix.width as int, i as int)[j as int]
        } else {
            line_b(matrix.value@, matrix.width as int, i as int)[j as int]
        }),
{
    let m = if cols {
        matrix.get(i, j)
    } else {
        matrix.get(j, i)
    };
    module_is_dark(m)
}

/// Finder shape bit, computed.
fn pattern_at(k: usize, fwd: bool) -> (b: bool)
    requires
        k < 11,
    ensures
        b == (if fwd {
            pattern_fwd()[k as int]
        } else {
            pattern_rev()[k as int]
        }),
{
    if fwd {
        matches!(k, 4 | 6 | 7 | 8 | 10)
    } else {
        matches!(k, 0 | 2 | 3 | 4 | 6)
    }
}

/// Does the window starting at `start` of the chosen line spell the
/// finder shape?
fn window_match(matrix: &Matrix, i: usize, start: usize, cols: bool, fwd: bool) -> (b: bool)
    requires
        matrix.wf(),
        i < matrix.width,
        start + 11 <= matrix.width,
    ensures
        ({
            let s = if cols {
                line_a(matrix.value@, matrix.width as int, i as int)
            } else {
                line_b(matrix.value@, matrix.width as int, i as int)
            };
            let p = if fwd {
                pattern_fwd()
            } else {
                pattern_rev()
            };
            b == window_matches(s, start as int, p)
        }),
{
    let ghost s = if cols {
        line_a(matrix.value@, matrix.width as int, i as int)
    } else {
        line_b(matrix.value@, matrix.width as int, i as int)
    };
    let ghost p = if fwd {
        pattern_fwd()
    } else {
        pattern_rev()
    };
    for k in 0..11usize
        invariant
            matrix.wf(),
            i < matrix.width,
            start + 11 <= matrix.width,
            s == (if cols {
                line_a(matrix.value@, matrix.width as int, i as int)
            } else {
                line_b(matrix.value@, matrix.width as int, i as int)
            }),
            p == (if fwd {
                pattern_fwd()
            } else {
                pattern_rev()
            }),
            forall|q: int| 0 <= q < k ==> s[start + q] == p[q],
    {
        let c = line_get(matrix, i, start + k, cols);
        let e = pattern_at(k, fwd);
        if c != e {
            proof {
                assert(s[start as int + k] != p[k as int]);
            }
            return false;
        }
    }
    true
}

/// Streak and finder-shape penalty of one scan line.
fn score_line(matrix: &Matrix, i: usize, cols: bool) -> (r: usize)
    requires
        matrix.wf(),
        i < matrix.width,
    ensures
        r == line_score(
            if cols {
                line_a(matrix.value@, matrix.width as int, i as int)
            } else {
                line_b(matrix.value@, matrix.width as int, i as int)
            },
        ),
        r <= 15000,
{
    let w = matrix.width;
    let ghost s = if cols {
        line_a(matrix.value@, matrix.width as int, i as int)
    } else {
        line_b(matrix.value@, matrix.width as int, i as int)
    };
    let mut streak_acc: usize = 0;
    let mut pc_fwd: usize = 0;
    let mut pc_rev: usize = 0;
    let mut run: usize = 1;
    let mut prev = line_get(matrix, i, 0, cols);
    proof {
        assert(run_len(s, 0) == 1);
        assert(streak_score(s, 0) == 0);
        assert(streak_score(s, 1) == 0);
        assert(pattern_count(s, 1 - 10, pattern_fwd()) == 0);
        assert(pattern_count(s, 1 - 10, pattern_rev()) == 0);
    }
    for j in 1..w
        invariant
            matrix.wf(),
            i < w,
            w == matrix.width,
            21 <= w <= 177,
            s == (if cols {
                line_a(matrix.value@, matrix.width as int, i as int)
            } else {
                line_b(matrix.value@, matrix.width as int, i as int)
            }),
            s.len() == w,
            run == run_len(s, j - 1),
            run <= j,
            prev == s[j - 1],
            streak_acc == streak_score(s, j as int),
            streak_acc <= 3 * j,
            pc_fwd == pattern_count(s, j - 10, pattern_fwd()),
            pc_rev == pattern_count(s, j - 10, pattern_rev()),
            pc_fwd <= j,
            pc_rev <= j,
    {
        let c = line_get(matrix, i, j, cols);
        if c == prev {
            run = run + 1;
        } else {
            run = 1;
        }
        if run == 5 {
            streak_acc = streak_acc + 3;
        } else if run > 5 {
            streak_acc = streak_acc + 1;
        }
        if j >= 10 {
            if window_match(matrix, i, j - 10, cols, true) {
                pc_fwd = pc_fwd + 1;
            }
            if window_match(matrix, i, j - 10, cols, false) {
                pc_rev = pc_rev + 1;
            }
        }
        prev = c;
    }
    proof {
        lemma_streak_bound(s, w as int);
        lemma_pattern_bound(s, w - 10, pattern_fwd());
        lemma_pattern_bound(s, w - 10, pattern_rev());
    }
    streak_acc + 40 * pc_fwd + 40 * pc_rev
}

/// The four penalty heuristics summed over the whole grid: dark
/// proportion, uniform 2x2 blocks, streaks and finder look-alikes by
/// line in both directions.
fn score(matrix: &Matrix) -> (r: usize)
    requires
        matrix.wf(),
    ensures
        r == score_spec(matrix.value@, matrix.width as int),
{
    let w = matrix.width;
    let wsq = matrix.value.len();
    let ghost g = matrix.value@;
    // Proportion of dark modules.
    let mut dark: usize = 0;
    for idx in 0..wsq
        invariant
            matrix.wf(),
            w == matrix.width,
            21 <= w <= 177,
            wsq == w * w,
            g == matrix.value@,
            dark == dark_count(g, idx as int),
            dark <= idx,
    {
        if module_is_dark(matrix.value[idx]) {
            dark = dark + 1;
        }
    }
    proof {
        assert(1 <= wsq <= 31329) by (nonlinear_arith)
            requires
                wsq == w * w,
                21 <= w <= 177,
        ;
    }
    let percent = dark * 100 / wsq;
    let dev = if percent < 50 {
        50 - percent
    } else {
        percent - 50
    };
    let prop = 10 * (dev / 5);
    proof {
        assert(percent <= 100) by (nonlinear_arith)
            requires
                percent == (dark as int) * 100 / (wsq as int),
                dark <= wsq,
                wsq >= 1,
        ;
        assert(prop == proportion_score(g, w as int));
    }
    // Uniform 2x2 blocks.
    let mut blocks: usize = 0;
    for idx in 0..wsq
        invariant
            matrix.wf(),
            w == matrix.width,
            21 <= w <= 177,
            wsq == w * w,
            g == matrix.value@,
            blocks == blocks_upto(g, w as int, idx as int),
            blocks <= 3 * idx,
    {
        let x = idx / w;
        let y = idx % w;
        proof {
            lemma_linear_index(w as int, idx as int);
            lemma_grid_index(w as int, x as int, y as int);
        }
        if x < w - 1 && y < w - 1 {
            proof {
                lemma_grid_index(w as int, x as int + 1, y as int);
                lemma_grid_index(w as int, x as int + 1, y as int + 1);
                assert((x as int + 1) * w == x as int * w + w) by (nonlinear_arith);
            }
            let curr = module_is_dark(matrix.get(x, y));
            let tr = module_is_dark(matrix.get(x + 1, y));
            let bl = module_is_dark(matrix.get(x, y + 1));
            let br = module_is_dark(matrix.get(x + 1, y + 1));
            if curr == tr && curr == bl && curr == br {
                blocks = blocks + 3;
            }
        }
    }
    // Lines in both directions.
    let mut lines: usize = 0;
    for i in 0..w
        invariant
            matrix.wf(),
            w == matrix.width,
            21 <= w <= 177,
            g == matrix.value@,
            lines == lines_score(g, w as int, i as int, true),
            lines <= 15000 * i,
    {
        let ls = score_line(matrix, i, true);
        lines = lines + ls;
    }
    let mut lines2: usize = 0;
    for i in 0..w
        invariant
            matrix.wf(),
            w == matrix.width,
            21 <= w <= 177,
            g == matrix.value@,
            lines2 == lines_score(g, w as int, i as int, false),
            lines2 <= 15000 * i,
    {
        let ls = score_line(matrix, i, false);
        lines2 = lines2 + ls;
    }
    prop + blocks + lines + lines2
}

// ---------------------------------------------------------------------
// Assembly: the full structural grid, the filled grid, the candidate
// grids per mask, and the winning mask.
// ---------------------------------------------------------------------
/// The whole structural grid of a version, as a sequence.
pub open spec fn base_grid(v: int) -> Seq<Module> {
    let w = 4 * v + 17;
    Seq::new((w * w) as nat, |i: int| base_module(v, i / w, i % w))
}

/// The grid after codeword placement, before format stamping and
/// masking.
pub open spec fn filled_grid(ver: Version, bytes: Seq<u8>) -> Seq<Module> {
    let w = 4 * ver.0 + 17;
    fill_state(base_grid(ver.0 as int), w, bytes, w * (w - 1)).0
}

/// How many codeword bits the traversal consumed.
pub open spec fn filled_used(ver: Version, bytes: Seq<u8>) -> nat {
    let w = 4 * ver.0 + 17;
    fill_state(base_grid(ver.0 as int), w, bytes, w * (w - 1)).1
}

/// The filled grid with the format word for (level index, mask index)
/// stamped over its reserved cells.
pub open spec fn stamped_grid(filled: Seq<Module>, w: int, e: int, m: int) -> Seq<Module> {
    overlaid(filled, w, |x: int, y: int| format_overlay(w, spec_format_info(e, m), x, y))
}

/// One finished candidate: format stamped for mask `m`, then mask `m`
/// applied to the data region.
pub open spec fn candidate_grid(filled: Seq<Module>, w: int, e: int, m: int) -> Seq<Module> {
    mask_grid(stamped_grid(filled, w, e, m), w, spec_mask_of(m))
}

/// Penalty of one candidate.
pub open spec fn cand_score(filled: Seq<Module>, w: int, e: int, m: int) -> int {
    score_spec(candidate_grid(filled, w, e, m), w)
}

/// Index of the lowest-penalty mask among `i..8`, carrying the best so
/// far; earlier indices win ties.
pub open spec fn best_from(filled: Seq<Module>, w: int, e: int, i: int, bi: int, bs: int) -> int
    decreases 8 - i,
{
    if i >= 8 {
        bi
    } else {
        let sc = cand_score(filled, w, e, i);
        if sc < bs {
            best_from(filled, w, e, i + 1, i, sc)
        } else {
            best_from(filled, w, e, i + 1, bi, bs)
        }
    }
}

/// Index of the mask the selector commits when none is forced.
pub open spec fn spec_best_mask(filled: Seq<Module>, w: int, e: int) -> int {
    best_from(filled, w, e, 1, 0, cand_score(filled, w, e, 0))
}

impl Matrix {
    /// Stamp every structural pattern in order, then lay the codewords:
    /// finder, reserved format, timing, version, alignment, data.
    fn place_all(&mut self, codewords: &Codewords) -> (used: usize)
        requires
            old(self).wf(),
            old(self).value@ == Seq::new(
                (old(self).width * old(self).width) as nat,
                |i: int| Module::Unset,
            ),
        ensures
            final(self).wf(),
            final(self).width == old(self).width,
            final(self).version == old(self).version,
            final(self).ecl == old(self).ecl,
            final(self).mask == old(self).mask,
            final(self).value@ == filled_grid(old(self).version, codewords.value@),
            used as nat == filled_used(old(self).version, codewords.value@),
            used <= 31329,
    {
        let ghost v = self.version.0 as int;
        self.place_finder();
        self.stamp_format(0);
        self.place_timing();
        self.place_version();
        self.place_alignment();
        proof {
            assert(self.value@ =~= base_grid(v));
        }
        let used = self.place_data(codewords);
        used
    }

    /// Build the finished symbol for the given codewords: place every
    /// structural pattern, lay the codeword bits along the zigzag path,
    /// then commit the forced mask, or score all eight candidates and
    /// commit the first lowest-penalty one. Codewords that leave cells
    /// unset or a whole byte unread do not match the version's capacity
    /// and yield no matrix.
    #[verifier::rlimit(100)]
    pub fn new(codewords: Codewords, mask: Option<Mask>) -> (r: Result<Matrix, QrError>)
        requires
            codewords.version.valid(),
        ensures
            ({
                let v = codewords.version;
                let w = v.spec_width();
                let e = spec_ecl_index(codewords.ecl);
                let filled = filled_grid(v, codewords.value@);
                let used = filled_used(v, codewords.value@);
                let well_sized = no_unset(filled) && 8 * codewords.value@.len() < used + 8;
                match r {
                    Ok(m) => {
                        &&& well_sized
                        &&& m.wf()
                        &&& m.version == v
                        &&& m.ecl == codewords.ecl
                        &&& m.value@ == candidate_grid(filled, w, e, spec_mask_index(m.mask))
                        &&& no_unset(m.value@)
                        &&& match mask {
                            Some(mm) => m.mask == mm,
                            None => spec_mask_index(m.mask) == spec_best_mask(filled, w, e),
                        }
                    },
                    Err(err) => !well_sized && err == QrError::MalformedCodewords,
                }
            }),
    {
        let width = 4 * codewords.version.0 + 17;
        proof {
            assert(width * width <= 31329) by (nonlinear_arith)
                requires
                    width <= 177,
            ;
        }
        let wsq = width * width;
        let mut value: Vec<Module> = Vec::new();
        for i in 0..wsq
            invariant
                value@.len() == i,
                forall|j: int| 0 <= j < i ==> value@[j] == Module::Unset,
        {
            value.push(Module::Unset);
        }
        let mut matrix = Matrix {
            value,
            width,
            version: codewords.version,
            ecl: codewords.ecl,
            mask: match mask {
                Some(m) => m,
                None => Mask::M0,
            },
        };
        proof {
            assert(matrix.value@ =~= Seq::new((width * width) as nat, |i: int| Module::Unset));
        }
        let used = matrix.place_all(&codewords);
        let ghost filled = matrix.value@;
        let ghost w = width as int;
        let ghost e = spec_ecl_index(codewords.ecl);
        let len = codewords.value.len();
        if matrix.has_unset() {
            return Err(QrError::MalformedCodewords);
        }
        if (used + 15) / 8 <= len {
            proof {
                assert(8 * len >= used + 8) by (nonlinear_arith)
                    requires
                        (used + 15) / 8 <= len,
                ;
            }
            return Err(QrError::MalformedCodewords);
        }
        proof {
            assert(8 * len < used + 8) by (nonlinear_arith)
                requires
                    (used + 15) / 8 > len,
            ;
        }
        match mask {
            Some(_) => {
                matrix.place_format();
                matrix.apply_mask();
                proof {
                    assert(matrix.value@ == candidate_grid(
                        filled,
                        w,
                        e,
                        spec_mask_index(matrix.mask),
                    ));
                }
            },
            None => {
                matrix.place_format();
                matrix.apply_mask();
                let mut min_score = score(&matrix);
                let mut min_mask: usize = 0;
                proof {
                    assert(matrix.value@ == candidate_grid(filled, w, e, 0));
                }
                matrix.apply_mask();
                proof {
                    lemma_mask_involution(stamped_grid(filled, w, e, 0), w, Mask::M0);
                }
                for mi in 1..8usize
                    invariant
                        matrix.wf(),
                        matrix.width == width,
                        matrix.version == codewords.version,
                        matrix.ecl == codewords.ecl,
                        w == width as int,
                        e == spec_ecl_index(codewords.ecl),
                        filled.len() == width * width,
                        matrix.value@ == stamped_grid(filled, w, e, mi - 1),
                        min_mask < mi,
                        min_score == cand_score(filled, w, e, min_mask as int),
                        spec_best_mask(filled, w, e) == best_from(
                            filled,
                            w,
                            e,
                            mi as int,
                            min_mask as int,
                            min_score as int,
                        ),
                {
                    matrix.mask = mask_of_index(mi);
                    matrix.place_format();
                    proof {
                        assert(matrix.value@ =~= stamped_grid(filled, w, e, mi as int));
                    }
                    matrix.apply_mask();
                    let sc = score(&matrix);
                    proof {
                        assert(matrix.value@ == candidate_grid(filled, w, e, mi as int));
                    }
                    matrix.apply_mask();
                    proof {
                        lemma_mask_involution(
                            stamped_grid(filled, w, e, mi as int),
                            w,
                            spec_mask_of(mi as int),
                        );
                    }
                    if sc < min_score {
                        min_score = sc;
                        min_mask = mi;
                    }
                }
                matrix.mask = mask_of_index(min_mask);
                matrix.place_format();
                proof {
                    assert(matrix.value@ =~= stamped_grid(filled, w, e, min_mask as int));
                }
                matrix.apply_mask();
                proof {
                    assert(matrix.value@ == candidate_grid(filled, w, e, min_mask as int));
                }
            },
        }
        proof {
            assert forall|i: int| 0 <= i < matrix.value@.len() implies matrix.value@[i]
                != Module::Unset by {
                assert(filled[i] != Module::Unset);
            }
        }
        Ok(matrix)
    }
}

/// How many of the first `upto` cells are still unset.
pub open spec fn unset_count(g: Seq<Module>, upto: int) -> int
    decreases upto,
{
    if upto <= 0 {
        0
    } else {
        unset_count(g, upto - 1) + (if g[upto - 1] == Module::Unset {
            1int
        } else {
            0int
        })
    }
}

/// Number of data-region bits a symbol of this version offers: the cells
/// that remain unset once every structural pattern is placed. Codewords
/// handed to the builder must cover exactly these bits, padded to whole
/// bytes.
pub fn data_capacity_bits(version: Version) -> (r: usize)
    requires
        version.valid(),
    ensures
        r as int == unset_count(
            base_grid(version.0 as int),
            version.spec_width() * version.spec_width(),
        ),
{
    let width = 4 * version.0 + 17;
    proof {
        assert(width * width <= 31329) by (nonlinear_arith)
            requires
                width <= 177,
        ;
    }
    let wsq = width * width;
    let mut value: Vec<Module> = Vec::new();
    for i in 0..wsq
        invariant
            value@.len() == i,
            forall|j: int| 0 <= j < i ==> value@[j] == Module::Unset,
    {
        value.push(Module::Unset);
    }
    let mut matrix = Matrix { value, width, version, ecl: ECL::Low, mask: Mask::M0 };
    proof {
        assert(matrix.value@ =~= Seq::new((width * width) as nat, |i: int| Module::Unset));
    }
    matrix.place_finder();
    matrix.stamp_format(0);
    matrix.place_timing();
    matrix.place_version();
    matrix.place_alignment();
    proof {
        assert(matrix.value@ =~= base_grid(version.0 as int));
    }
    let ghost g = matrix.value@;
    let n = matrix.value.len();
    let mut cnt: usize = 0;
    for i in 0..n
        invariant
            n == g.len(),
            g == matrix.value@,
            cnt as int == unset_count(g, i as int),
            cnt <= i,
    {
        if matches!(matrix.value[i], Module::Unset) {
            cnt = cnt + 1;
        }
    }
    cnt
}

/// The fold that tracks the running best really returns the first
/// lowest-scoring index among those still to be visited.
proof fn lemma_best_from_minimal(filled: Seq<Module>, w: int, e: int, i: int, bi: int, bs: int)
    requires
        1 <= i <= 8,
        0 <= bi < 8,
        bs == cand_score(filled, w, e, bi),
    ensures
        0 <= best_from(filled, w, e, i, bi, bs) < 8,
        cand_score(filled, w, e, best_from(filled, w, e, i, bi, bs)) <= bs,
        forall|j: int|
            i <= j < 8 ==> cand_score(filled, w, e, best_from(filled, w, e, i, bi, bs))
                <= #[trigger] cand_score(filled, w, e, j),
    decreases 8 - i,
{
    if i < 8 {
        let sc = cand_score(filled, w, e, i);
        if sc < bs {
            lemma_best_from_minimal(filled, w, e, i + 1, i, sc);
        } else {
            lemma_best_from_minimal(filled, w, e, i + 1, bi, bs);
        }
    }
}

/// The selector commits a lowest-penalty mask: no candidate of the
/// eight scores below the committed one.
pub proof fn lemma_best_mask_minimal(filled: Seq<Module>, w: int, e: int, m: int)
    requires
        0 <= m < 8,
    ensures
        0 <= spec_best_mask(filled, w, e) < 8,
        cand_score(filled, w, e, spec_best_mask(filled, w, e)) <= cand_score(filled, w, e, m),
{
    lemma_best_from_minimal(filled, w, e, 1, 0, cand_score(filled, w, e, 0));
}

/// The zigzag traversal is complete: every cell outside the vertical
/// timing column is visited at some step, so a correctly sized codeword
/// sequence leaves no data-capacity cell unset.
pub proof fn lemma_zigzag_reaches_every_cell(w: int, x: int, y: int) -> (t: int)
    requires
        21 <= w <= 177,
        w % 2 == 1,
        0 <= x < w,
        x != 6,
        0 <= y < w,
    ensures
        0 <= t < w * (w - 1),
        zz_x(w, t) == x,
        zz_y(w, t) == y,
{
    let p1 = (w - 7) / 2;
    let k = (w - 1) / 2;
    assert(2 * p1 == w - 7);
    assert(2 * k == w - 1);
    let p = if x > 6 {
        (w - 1 - x) / 2
    } else {
        p1 + (5 - x) / 2
    };
    let e = if x > 6 {
        (w - 1 - x) % 2
    } else {
        (5 - x) % 2
    };
    if x > 6 {
        lemma_fundamental_div_mod(w - 1 - x, 2);
        assert(2 * p + e == w - 1 - x);
        assert(p < p1);
    } else {
        lemma_fundamental_div_mod(5 - x, 2);
        assert(2 * (p - p1) + e == 5 - x);
        assert(p1 <= p <= k - 1);
    }
    let hi = if p < p1 {
        w - 1 - 2 * p
    } else {
        w - 2 - 2 * p
    };
    assert(hi == x + e);
    let r = if p % 2 == 0 {
        w - 1 - y
    } else {
        y
    };
    assert(0 <= r < w);
    let t = p * (2 * w) + 2 * r + e;
    assert(2 * r + e < 2 * w);
    assert(t < w * (w - 1)) by (nonlinear_arith)
        requires
            t == p * (2 * w) + 2 * r + e,
            2 * r + e < 2 * w,
            p <= k - 1,
            2 * k == w - 1,
            w >= 1,
    ;
    assert(t >= 0) by (nonlinear_arith)
        requires
            t == p * (2 * w) + 2 * r + e,
            p >= 0,
            r >= 0,
            e >= 0,
            w >= 1,
    ;
    lemma_fundamental_div_mod_converse(t, 2 * w, p, 2 * r + e);
    assert(t / (2 * w) == p);
    assert(t == (w * p + r) * 2 + e) by (nonlinear_arith)
        requires
            t == p * (2 * w) + 2 * r + e,
    ;
    lemma_fundamental_div_mod_converse(t, 2, w * p + r, e);
    assert(t % 2 == e);
    assert(t / 2 == w * p + r);
    lemma_fundamental_div_mod_converse(w * p + r, w, p, r);
    assert((t / 2) % w == r);
    assert(zz_x(w, t) == hi - e);
    assert(zz_y(w, t) == y);
    t
}

/// The one column the traversal skips needs no codeword bits: every cell
/// of the vertical timing column is claimed by a structural pattern.
pub proof fn lemma_timing_column_structural(v: int, y: int)
    requires
        1 <= v <= 40,
        0 <= y < 4 * v + 17,
    ensures
        base_module(v, 6, y) != Module::Unset,
{
    let w = 4 * v + 17;
    if y <= 7 {
        assert(finder_overlay(w, 6, y) is Some);
    } else if y < w - 8 {
        assert(timing_overlay(w, 6, y) is Some);
    } else {
        assert(finder_overlay(w, 6, y) is Some);
    }
}

} // verus!
