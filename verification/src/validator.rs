//! The structural checks a material's maps are held to: each map's extent
//! agrees with what the material declares, its edges are powers of two so it
//! can be mipmapped, and its channels are laid out as its role usually is.
//!
//! The checks on sample values (normals of unit length, seams that tile) are
//! floating-point measures and are not made here.

use vstd::prelude::*;

use crate::texture::ChannelLayout;
use vstd::arithmetic::power2::{is_pow2, is_pow2_equiv, is_pow2_exists};

verus! {

/// Which rule a finding is about.
#[derive(Debug, Clone, Copy, PartialEq, Eq, Structural)]
pub enum Check {
    /// A map's extent differs from the material's.
    Resolution,
    /// An edge is not a power of two.
    Dimensions,
    /// A map is stored in a layout unusual for its role.
    Channels,
    /// The maps of one material are not all one size.
    MaterialIntegrity,
}

/// How much a finding matters.
#[derive(Debug, Clone, Copy, PartialEq, Eq, Structural)]
pub enum Severity {
    /// The material must not ship.
    Failure,
    /// Legal, but worth a look.
    Warning,
}

/// One thing found about one map.
#[derive(Debug, Clone, Copy, PartialEq, Eq, Structural)]
pub struct MapFinding {
    /// Which map, by its position in the list given; `None` for a finding
    /// about the maps together.
    pub map: Option<usize>,
    /// The rule.
    pub check: Check,
    /// How much it matters.
    pub severity: Severity,
}

/// What the structural checks read of one map: its extent, the layout it is
/// stored in, and the layout usual for its role.
#[derive(Debug, Clone, Copy, PartialEq, Eq, Structural)]
pub struct MapShape {
    /// Width in texels.
    pub width: u32,
    /// Height in texels.
    pub height: u32,
    /// The layout it is stored in.
    pub channels: ChannelLayout,
    /// The layout usual for its role.
    pub natural: ChannelLayout,
}

/// A power of two: one, or twice a power of two.
pub open spec fn power_of_two(n: nat) -> bool
    decreases n,
{
    if n == 1 {
        true
    } else if n == 0 || n % 2 != 0 {
        false
    } else {
        power_of_two(n / 2)
    }
}

/// What the checks find about map `i`, in order: its extent against the
/// declared one, then its edges, then its layout.
pub open spec fn findings_for(width: u32, height: u32, i: int, m: MapShape) -> Seq<MapFinding> {
    (if m.width != width || m.height != height {
        seq![MapFinding { map: Some(i as usize), check: Check::Resolution, severity: Severity::Failure }]
    } else {
        Seq::empty()
    }) + (if !power_of_two(m.width as nat) || !power_of_two(m.height as nat) {
        seq![MapFinding { map: Some(i as usize), check: Check::Dimensions, severity: Severity::Failure }]
    } else {
        Seq::empty()
    }) + (if m.channels != m.natural {
        seq![MapFinding { map: Some(i as usize), check: Check::Channels, severity: Severity::Warning }]
    } else {
        Seq::empty()
    })
}

/// What the checks find about the first `n` maps, map by map.
pub open spec fn findings_upto(width: u32, height: u32, maps: Seq<MapShape>, n: int) -> Seq<
    MapFinding,
>
    decreases n,
{
    if n <= 0 {
        Seq::empty()
    } else {
        findings_upto(width, height, maps, n - 1) + findings_for(width, height, n - 1, maps[n - 1])
    }
}

/// Every map has the extent of every other.
pub open spec fn one_size(maps: Seq<MapShape>) -> bool {
    forall|i: int, j: int|
        0 <= i < maps.len() && 0 <= j < maps.len() ==> #[trigger] maps[i].width == #[trigger] maps[j].width
            && maps[i].height == maps[j].height
}

/// The finding about the maps together: a failure when they are not all one
/// size, after every finding about a single map.
pub open spec fn integrity_findings(maps: Seq<MapShape>) -> Seq<MapFinding> {
    if one_size(maps) {
        Seq::empty()
    } else {
        seq![MapFinding { map: None, check: Check::MaterialIntegrity, severity: Severity::Failure }]
    }
}

/// Whether every map has the extent of the first.
fn all_one_size(maps: &Vec<MapShape>) -> (r: bool)
    ensures
        r == one_size(maps@),
{
    if maps.len() == 0 {
        return true;
    }
    let w = maps[0].width;
    let h = maps[0].height;
    let mut i: usize = 1;
    while i < maps.len()
        invariant
            1 <= i <= maps@.len(),
            w == maps@[0].width,
            h == maps@[0].height,
            forall|k: int| 0 <= k < i ==> (#[trigger] maps@[k]).width == w && maps@[k].height == h,
        decreases maps.len() - i,
    {
        let m = maps[i];
        if m.width != w || m.height != h {
            proof {
                let a = maps@[0];
                let b = maps@[i as int];
                assert(!(a.width == b.width && a.height == b.height));
            }
            return false;
        }
        proof {
            assert(m == maps@[i as int]);
        }
        i += 1;
    }
    proof {
        assert forall|a: int, b: int| 0 <= a < maps@.len() && 0 <= b < maps@.len() implies #[trigger] maps@[a].width
            == #[trigger] maps@[b].width && maps@[a].height == maps@[b].height by {
            assert(maps@[a].width == w && maps@[a].height == h);
            assert(maps@[b].width == w && maps@[b].height == h);
        }
    }
    true
}

/// Whether a number is a power of two.
pub fn is_power_of_two(n: u32) -> (r: bool)
    ensures
        r == power_of_two(n as nat),
{
    let mut m = n;
    while m > 1 && m % 2 == 0
        invariant
            power_of_two(n as nat) == power_of_two(m as nat),
        decreases m,
    {
        m = m / 2;
    }
    m == 1
}

/// Hold each map to the structural rules against the extent the material
/// declares, in the order given, and then the maps together: a
/// [`Check::MaterialIntegrity`] failure exactly when two of them differ in
/// size.
pub fn map_findings(width: u32, height: u32, maps: &Vec<MapShape>) -> (r: Vec<MapFinding>)
    ensures
        r@ == findings_upto(width, height, maps@, maps@.len() as int) + integrity_findings(maps@),
{
    let mut found: Vec<MapFinding> = Vec::new();
    let mut i: usize = 0;
    while i < maps.len()
        invariant
            i <= maps@.len(),
            found@ == findings_upto(width, height, maps@, i as int),
        decreases maps.len() - i,
    {
        let m = maps[i];
        let ghost before = found@;
        if m.width != width || m.height != height {
            found.push(MapFinding { map: Some(i), check: Check::Resolution, severity: Severity::Failure });
        }
        if !is_power_of_two(m.width) || !is_power_of_two(m.height) {
            found.push(MapFinding { map: Some(i), check: Check::Dimensions, severity: Severity::Failure });
        }
        if m.channels != m.natural {
            found.push(MapFinding { map: Some(i), check: Check::Channels, severity: Severity::Warning });
        }
        proof {
            assert(found@ =~= before + findings_for(width, height, i as int, m));
        }
        i += 1;
    }
    if !all_one_size(maps) {
        found.push(MapFinding { map: None, check: Check::MaterialIntegrity, severity: Severity::Failure });
    }
    proof {
        if one_size(maps@) {
            assert(found@ =~= findings_upto(width, height, maps@, maps@.len() as int) + integrity_findings(maps@));
        }
    }
    found
}

/// The recursive test agrees with vstd's: halving down to one.
proof fn lemma_power_of_two_halving(n: nat)
    ensures
        power_of_two(n) == is_pow2(n as int),
    decreases n,
{
    reveal(is_pow2);
    if n > 1 && n % 2 == 0 {
        lemma_power_of_two_halving(n / 2);
    }
}

/// [`power_of_two`] holds of exactly the numbers `2^k`.
pub proof fn lemma_power_of_two_is_pow2(n: nat)
    ensures
        power_of_two(n) <==> is_pow2_exists(n as int),
{
    lemma_power_of_two_halving(n);
    is_pow2_equiv(n as int);
}

/// Concatenation holds what either part holds.
proof fn lemma_concat_contains(a: Seq<MapFinding>, b: Seq<MapFinding>, x: MapFinding)
    ensures
        (a + b).contains(x) <==> (a.contains(x) || b.contains(x)),
{
    if (a + b).contains(x) {
        let k = choose|k: int| 0 <= k < (a + b).len() && (a + b)[k] == x;
        if k < a.len() {
            assert(a[k] == x);
        } else {
            assert(b[k - a.len()] == x);
        }
    }
    if a.contains(x) {
        let k = choose|k: int| 0 <= k < a.len() && a[k] == x;
        assert((a + b)[k] == x);
    }
    if b.contains(x) {
        let k = choose|k: int| 0 <= k < b.len() && b[k] == x;
        assert((a + b)[a.len() + k] == x);
    }
}

/// Every finding about map `i` names `i`.
proof fn lemma_findings_for_name(width: u32, height: u32, i: int, m: MapShape, x: MapFinding)
    requires
        findings_for(width, height, i, m).contains(x),
    ensures
        x.map == Some(i as usize),
{
    let k = choose|k: int| 0 <= k < findings_for(width, height, i, m).len() && findings_for(width, height, i, m)[k] == x;
}

/// A finding about map `i` is among the first `n` maps' findings exactly
/// when `i` is one of them and its own findings hold it.
proof fn lemma_upto_contains(width: u32, height: u32, maps: Seq<MapShape>, n: int, i: int, x: MapFinding)
    requires
        0 <= i < maps.len(),
        n <= maps.len(),
        maps.len() <= usize::MAX,
        x.map == Some(i as usize),
    ensures
        findings_upto(width, height, maps, n).contains(x) <==> (i < n && findings_for(
            width,
            height,
            i,
            maps[i],
        ).contains(x)),
    decreases n,
{
    if n > 0 {
        lemma_upto_contains(width, height, maps, n - 1, i, x);
        lemma_concat_contains(findings_upto(width, height, maps, n - 1), findings_for(width, height, n - 1, maps[n - 1]), x);
        if findings_for(width, height, n - 1, maps[n - 1]).contains(x) {
            lemma_findings_for_name(width, height, n - 1, maps[n - 1], x);
            assert(((n - 1) as usize) == (i as usize));
        }
    }
}

/// What a single map's findings hold, rule by rule.
proof fn lemma_findings_for_rules(width: u32, height: u32, i: int, m: MapShape)
    ensures
        findings_for(width, height, i, m).contains(
            MapFinding { map: Some(i as usize), check: Check::Resolution, severity: Severity::Failure },
        ) <==> (m.width != width || m.height != height),
        findings_for(width, height, i, m).contains(
            MapFinding { map: Some(i as usize), check: Check::Dimensions, severity: Severity::Failure },
        ) <==> !(power_of_two(m.width as nat) && power_of_two(m.height as nat)),
        findings_for(width, height, i, m).contains(
            MapFinding { map: Some(i as usize), check: Check::Channels, severity: Severity::Warning },
        ) <==> m.channels != m.natural,
{
    let r = MapFinding { map: Some(i as usize), check: Check::Resolution, severity: Severity::Failure };
    let d = MapFinding { map: Some(i as usize), check: Check::Dimensions, severity: Severity::Failure };
    let c = MapFinding { map: Some(i as usize), check: Check::Channels, severity: Severity::Warning };
    let a1 = if m.width != width || m.height != height { seq![r] } else { Seq::empty() };
    let a2 = if !power_of_two(m.width as nat) || !power_of_two(m.height as nat) { seq![d] } else { Seq::empty() };
    let a3 = if m.channels != m.natural { seq![c] } else { Seq::empty() };
    assert(findings_for(width, height, i, m) == a1 + a2 + a3);
    lemma_concat_contains(a1 + a2, a3, r);
    lemma_concat_contains(a1, a2, r);
    lemma_concat_contains(a1 + a2, a3, d);
    lemma_concat_contains(a1, a2, d);
    lemma_concat_contains(a1 + a2, a3, c);
    lemma_concat_contains(a1, a2, c);
    if a1.contains(d) || a3.contains(d) || a1.contains(c) || a2.contains(c) || a2.contains(r) || a3.contains(r) {
        assert(false) by {
            if a1.contains(d) { assert(a1[0] != d); }
            if a3.contains(d) { assert(a3[0] != d); }
            if a1.contains(c) { assert(a1[0] != c); }
            if a2.contains(c) { assert(a2[0] != c); }
            if a2.contains(r) { assert(a2[0] != r); }
            if a3.contains(r) { assert(a3[0] != r); }
        }
    }
    if a1.len() > 0 { assert(a1[0] == r); }
    if a2.len() > 0 { assert(a2[0] == d); }
    if a3.len() > 0 { assert(a3[0] == c); }
}

/// Each map is held to each rule on its own: map `i` of the list gets a
/// resolution failure exactly when its extent differs from the declared
/// one, a dimensions failure exactly when its width or its height is not
/// `2^k` for any `k`, and a channels warning exactly when it is stored in a
/// layout other than its role's usual one; and the maps together get an
/// integrity failure exactly when two of them differ in size.
pub proof fn lemma_map_rules(width: u32, height: u32, maps: Seq<MapShape>, i: int)
    requires
        0 <= i < maps.len(),
        maps.len() <= usize::MAX,
    ensures
        (findings_upto(width, height, maps, maps.len() as int) + integrity_findings(maps)).contains(
            MapFinding { map: Some(i as usize), check: Check::Resolution, severity: Severity::Failure },
        ) <==> (maps[i].width != width || maps[i].height != height),
        (findings_upto(width, height, maps, maps.len() as int) + integrity_findings(maps)).contains(
            MapFinding { map: Some(i as usize), check: Check::Dimensions, severity: Severity::Failure },
        ) <==> !(is_pow2_exists(maps[i].width as int) && is_pow2_exists(maps[i].height as int)),
        (findings_upto(width, height, maps, maps.len() as int) + integrity_findings(maps)).contains(
            MapFinding { map: Some(i as usize), check: Check::Channels, severity: Severity::Warning },
        ) <==> maps[i].channels != maps[i].natural,
        (findings_upto(width, height, maps, maps.len() as int) + integrity_findings(maps)).contains(
            MapFinding { map: None, check: Check::MaterialIntegrity, severity: Severity::Failure },
        ) <==> exists|j: int, k: int|
            0 <= j < maps.len() && 0 <= k < maps.len() && (#[trigger] maps[j].width != #[trigger] maps[k].width
                || maps[j].height != maps[k].height),
{
    let all = findings_upto(width, height, maps, maps.len() as int);
    let tail = integrity_findings(maps);
    let m = maps[i];
    lemma_power_of_two_is_pow2(m.width as nat);
    lemma_power_of_two_is_pow2(m.height as nat);
    lemma_findings_for_rules(width, height, i, m);
    let r = MapFinding { map: Some(i as usize), check: Check::Resolution, severity: Severity::Failure };
    let d = MapFinding { map: Some(i as usize), check: Check::Dimensions, severity: Severity::Failure };
    let c = MapFinding { map: Some(i as usize), check: Check::Channels, severity: Severity::Warning };
    let g = MapFinding { map: None, check: Check::MaterialIntegrity, severity: Severity::Failure };
    lemma_upto_contains(width, height, maps, maps.len() as int, i, r);
    lemma_upto_contains(width, height, maps, maps.len() as int, i, d);
    lemma_upto_contains(width, height, maps, maps.len() as int, i, c);
    lemma_concat_contains(all, tail, r);
    lemma_concat_contains(all, tail, d);
    lemma_concat_contains(all, tail, c);
    lemma_concat_contains(all, tail, g);
    if tail.contains(r) || tail.contains(d) || tail.contains(c) {
        assert(tail.len() == 1 && tail[0] == g);
    }
    lemma_upto_no_integrity(width, height, maps, maps.len() as int);
    if tail.contains(g) {
        assert(!one_size(maps));
    } else {
        assert(one_size(maps)) by {
            if !one_size(maps) {
                assert(tail[0] == g);
            }
        }
    }
}

/// No single map's finding is about the maps together.
proof fn lemma_upto_no_integrity(width: u32, height: u32, maps: Seq<MapShape>, n: int)
    ensures
        !findings_upto(width, height, maps, n).contains(
            MapFinding { map: None, check: Check::MaterialIntegrity, severity: Severity::Failure },
        ),
    decreases n,
{
    let g = MapFinding { map: None, check: Check::MaterialIntegrity, severity: Severity::Failure };
    if n > 0 {
        lemma_upto_no_integrity(width, height, maps, n - 1);
        lemma_concat_contains(findings_upto(width, height, maps, n - 1), findings_for(width, height, n - 1, maps[n - 1]), g);
        if findings_for(width, height, n - 1, maps[n - 1]).contains(g) {
            lemma_findings_for_name(width, height, n - 1, maps[n - 1], g);
        }
    }
}

} // verus!
