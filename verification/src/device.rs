//! Plain-value parts of the DX12 device sample: the capability report of a
//! WARP device, adapter names stored as NUL-terminated UTF-16, and the layout
//! of pixels read back from a row-pitched buffer.

use vstd::prelude::*;
use crate::text::{bool_text, decimal, push_bool, push_decimal};

verus! {

/// Capabilities reported by a DX12 WARP device.
#[derive(Debug)]
pub struct WarpDeviceCapabilities {
    pub adapter_name: String,
    pub feature_level: String,
    pub resource_binding_tier: String,
    pub tiled_resources_tier: String,
    pub conservative_rasterization_tier: String,
    pub resource_heap_tier: String,
    pub raytracing_tier: String,
    pub mesh_shader_tier: String,
    pub highest_shader_model: String,
    pub wave_ops_supported: bool,
    pub wave_lane_count_min: u32,
    pub wave_lane_count_max: u32,
    pub total_lane_count: u32,
    pub int64_shader_ops_supported: bool,
    pub uma: bool,
    pub cache_coherent_uma: bool,
}

/// One line of the report: a label, a value and a line break.
pub open spec fn report_line(label: Seq<char>, value: Seq<char>) -> Seq<char> {
    label + value + "\n"@
}

/// The capability report: a title line, then one line per capability (the
/// last one without a line break).
pub open spec fn capabilities_text(c: WarpDeviceCapabilities) -> Seq<char> {
    "DX12 WARP device capabilities\n"@
        + report_line("Adapter: "@, c.adapter_name@)
        + report_line("Feature level: "@, c.feature_level@)
        + report_line("Resource binding tier: "@, c.resource_binding_tier@)
        + report_line("Tiled resources tier: "@, c.tiled_resources_tier@)
        + report_line("Conservative rasterization tier: "@, c.conservative_rasterization_tier@)
        + report_line("Resource heap tier: "@, c.resource_heap_tier@)
        + report_line("Ray tracing tier: "@, c.raytracing_tier@)
        + report_line("Mesh shader tier: "@, c.mesh_shader_tier@)
        + report_line("Highest shader model: "@, c.highest_shader_model@)
        + report_line("Wave ops supported: "@, bool_text(c.wave_ops_supported))
        + report_line("Wave lane count min: "@, decimal(c.wave_lane_count_min as nat))
        + report_line("Wave lane count max: "@, decimal(c.wave_lane_count_max as nat))
        + report_line("Total wave lane count: "@, decimal(c.total_lane_count as nat))
        + report_line("Int64 shader ops supported: "@, bool_text(c.int64_shader_ops_supported))
        + report_line("UMA: "@, bool_text(c.uma))
        + "Cache coherent UMA: "@ + bool_text(c.cache_coherent_uma)
}

/// `text` holds, somewhere, the line made of `label`, then `value`, then a
/// line break.
#[verifier::opaque]
pub open spec fn has_line(text: Seq<char>, label: Seq<char>, value: Seq<char>) -> bool {
    exists|k: int| 0 <= k && k + label.len() + value.len() + 1 <= text.len()
        && #[trigger] text.subrange(k, k + label.len() + value.len() + 1) == label + value + "\n"@
}

/// `true` or `false`, as the report writes a flag.
pub open spec fn flag_text(b: bool) -> Seq<char> {
    if b { "true"@ } else { "false"@ }
}

proof fn lemma_has_line_end(s: Seq<char>, label: Seq<char>, value: Seq<char>)
    ensures
        has_line(s + (label + value + "\n"@), label, value),
{
    reveal(has_line);
    reveal_strlit("\n");
    let line = label + value + "\n"@;
    let k = s.len() as int;
    assert((s + line).subrange(k, k + line.len()) =~= line);
    assert((s + line).subrange(k, k + label.len() + value.len() + 1) == label + value + "\n"@);
}

proof fn lemma_has_line_extend(s: Seq<char>, t: Seq<char>)
    ensures
        forall|label: Seq<char>, value: Seq<char>| has_line(s, label, value) ==> #[trigger] has_line(s + t, label, value),
{
    reveal(has_line);
    assert forall|label: Seq<char>, value: Seq<char>| has_line(s, label, value) implies #[trigger] has_line(s + t, label, value) by {
        let n = label.len() + value.len() + 1;
        let k = choose|k: int| 0 <= k && k + label.len() + value.len() + 1 <= s.len()
            && #[trigger] s.subrange(k, k + label.len() + value.len() + 1) == label + value + "\n"@;
        assert((s + t).subrange(k, k + n) =~= s.subrange(k, k + n));
    }
}

proof fn lemma_starts_with(a: Seq<char>, b: Seq<char>)
    ensures
        a.is_prefix_of(a + b),
{
    assert((a + b).subrange(0, a.len() as int) =~= a);
}

proof fn lemma_ends_with(a: Seq<char>, b: Seq<char>, c: Seq<char>)
    ensures
        (b + c).is_suffix_of(a + b + c),
{
    let whole = a + b + c;
    assert(whole.subrange(whole.len() - (b + c).len(), whole.len() as int) =~= b + c);
}

/// The report starts with its title and holds, for every capability, the
/// line with that capability's label and the value of that same field: the
/// field's text, a count in decimal, or `true` / `false` for a flag.  It ends
/// with the cache-coherent-UMA flag.
pub proof fn law_report_lines(c: WarpDeviceCapabilities)
    ensures
        "DX12 WARP device capabilities\n"@.is_prefix_of(capabilities_text(c)),
        has_line(capabilities_text(c), "Adapter: "@, c.adapter_name@),
        has_line(capabilities_text(c), "Feature level: "@, c.feature_level@),
        has_line(capabilities_text(c), "Resource binding tier: "@, c.resource_binding_tier@),
        has_line(capabilities_text(c), "Tiled resources tier: "@, c.tiled_resources_tier@),
        has_line(capabilities_text(c), "Conservative rasterization tier: "@, c.conservative_rasterization_tier@),
        has_line(capabilities_text(c), "Resource heap tier: "@, c.resource_heap_tier@),
        has_line(capabilities_text(c), "Ray tracing tier: "@, c.raytracing_tier@),
        has_line(capabilities_text(c), "Mesh shader tier: "@, c.mesh_shader_tier@),
        has_line(capabilities_text(c), "Highest shader model: "@, c.highest_shader_model@),
        has_line(capabilities_text(c), "Wave ops supported: "@, flag_text(c.wave_ops_supported)),
        has_line(capabilities_text(c), "Wave lane count min: "@, decimal(c.wave_lane_count_min as nat)),
        has_line(capabilities_text(c), "Wave lane count max: "@, decimal(c.wave_lane_count_max as nat)),
        has_line(capabilities_text(c), "Total wave lane count: "@, decimal(c.total_lane_count as nat)),
        has_line(capabilities_text(c), "Int64 shader ops supported: "@, flag_text(c.int64_shader_ops_supported)),
        has_line(capabilities_text(c), "UMA: "@, flag_text(c.uma)),
        ("Cache coherent UMA: "@ + flag_text(c.cache_coherent_uma)).is_suffix_of(capabilities_text(c)),
{
    let p0 = "DX12 WARP device capabilities\n"@;
    let p1 = p0 + report_line("Adapter: "@, c.adapter_name@);
    lemma_has_line_end(p0, "Adapter: "@, c.adapter_name@);
    let p2 = p1 + report_line("Feature level: "@, c.feature_level@);
    lemma_has_line_end(p1, "Feature level: "@, c.feature_level@);
    lemma_has_line_extend(p1, report_line("Feature level: "@, c.feature_level@));
    let p3 = p2 + report_line("Resource binding tier: "@, c.resource_binding_tier@);
    lemma_has_line_end(p2, "Resource binding tier: "@, c.resource_binding_tier@);
    lemma_has_line_extend(p2, report_line("Resource binding tier: "@, c.resource_binding_tier@));
    let p4 = p3 + report_line("Tiled resources tier: "@, c.tiled_resources_tier@);
    lemma_has_line_end(p3, "Tiled resources tier: "@, c.tiled_resources_tier@);
    lemma_has_line_extend(p3, report_line("Tiled resources tier: "@, c.tiled_resources_tier@));
    let p5 = p4 + report_line("Conservative rasterization tier: "@, c.conservative_rasterization_tier@);
    lemma_has_line_end(p4, "Conservative rasterization tier: "@, c.conservative_rasterization_tier@);
    lemma_has_line_extend(p4, report_line("Conservative rasterization tier: "@, c.conservative_rasterization_tier@));
    let p6 = p5 + report_line("Resource heap tier: "@, c.resource_heap_tier@);
    lemma_has_line_end(p5, "Resource heap tier: "@, c.resource_heap_tier@);
    lemma_has_line_extend(p5, report_line("Resource heap tier: "@, c.resource_heap_tier@));
    let p7 = p6 + report_line("Ray tracing tier: "@, c.raytracing_tier@);
    lemma_has_line_end(p6, "Ray tracing tier: "@, c.raytracing_tier@);
    lemma_has_line_extend(p6, report_line("Ray tracing tier: "@, c.raytracing_tier@));
    let p8 = p7 + report_line("Mesh shader tier: "@, c.mesh_shader_tier@);
    lemma_has_line_end(p7, "Mesh shader tier: "@, c.mesh_shader_tier@);
    lemma_has_line_extend(p7, report_line("Mesh shader tier: "@, c.mesh_shader_tier@));
    let p9 = p8 + report_line("Highest shader model: "@, c.highest_shader_model@);
    lemma_has_line_end(p8, "Highest shader model: "@, c.highest_shader_model@);
    lemma_has_line_extend(p8, report_line("Highest shader model: "@, c.highest_shader_model@));
    let p10 = p9 + report_line("Wave ops supported: "@, bool_text(c.wave_ops_supported));
    lemma_has_line_end(p9, "Wave ops supported: "@, bool_text(c.wave_ops_supported));
    lemma_has_line_extend(p9, report_line("Wave ops supported: "@, bool_text(c.wave_ops_supported)));
    let p11 = p10 + report_line("Wave lane count min: "@, decimal(c.wave_lane_count_min as nat));
    lemma_has_line_end(p10, "Wave lane count min: "@, decimal(c.wave_lane_count_min as nat));
    lemma_has_line_extend(p10, report_line("Wave lane count min: "@, decimal(c.wave_lane_count_min as nat)));
    let p12 = p11 + report_line("Wave lane count max: "@, decimal(c.wave_lane_count_max as nat));
    lemma_has_line_end(p11, "Wave lane count max: "@, decimal(c.wave_lane_count_max as nat));
    lemma_has_line_extend(p11, report_line("Wave lane count max: "@, decimal(c.wave_lane_count_max as nat)));
    let p13 = p12 + report_line("Total wave lane count: "@, decimal(c.total_lane_count as nat));
    lemma_has_line_end(p12, "Total wave lane count: "@, decimal(c.total_lane_count as nat));
    lemma_has_line_extend(p12, report_line("Total wave lane count: "@, decimal(c.total_lane_count as nat)));
    let p14 = p13 + report_line("Int64 shader ops supported: "@, bool_text(c.int64_shader_ops_supported));
    lemma_has_line_end(p13, "Int64 shader ops supported: "@, bool_text(c.int64_shader_ops_supported));
    lemma_has_line_extend(p13, report_line("Int64 shader ops supported: "@, bool_text(c.int64_shader_ops_supported)));
    let p15 = p14 + report_line("UMA: "@, bool_text(c.uma));
    lemma_has_line_end(p14, "UMA: "@, bool_text(c.uma));
    lemma_has_line_extend(p14, report_line("UMA: "@, bool_text(c.uma)));
    let p16 = p15 + "Cache coherent UMA: "@;
    lemma_has_line_extend(p15, "Cache coherent UMA: "@);
    let last = bool_text(c.cache_coherent_uma);
    let text = p16 + last;
    lemma_has_line_extend(p16, last);
    assert(text == capabilities_text(c));
    lemma_starts_with(p0, text.subrange(p0.len() as int, text.len() as int));
    assert(text =~= p0 + text.subrange(p0.len() as int, text.len() as int));
    lemma_ends_with(p15, "Cache coherent UMA: "@, last);
}

fn push_text_line(out: &mut String, label: &str, value: &String)
    ensures
        final(out)@ == old(out)@ + report_line(label@, value@),
{
    out.append(label);
    out.append(value.as_str());
    out.append("\n");
    assert(final(out)@ =~= old(out)@ + report_line(label@, value@));
}

fn push_bool_line(out: &mut String, label: &str, value: bool)
    ensures
        final(out)@ == old(out)@ + report_line(label@, bool_text(value)),
{
    out.append(label);
    push_bool(out, value);
    out.append("\n");
    assert(final(out)@ =~= old(out)@ + report_line(label@, bool_text(value)));
}

fn push_count_line(out: &mut String, label: &str, value: u32)
    ensures
        final(out)@ == old(out)@ + report_line(label@, decimal(value as nat)),
{
    out.append(label);
    push_decimal(out, value);
    out.append("\n");
    assert(final(out)@ =~= old(out)@ + report_line(label@, decimal(value as nat)));
}

impl WarpDeviceCapabilities {
    /// The capability report as text.
    pub fn describe(&self) -> (text: String)
        ensures
            text@ == capabilities_text(*self),
    {
        let mut out = String::from_str("DX12 WARP device capabilities\n");
        push_text_line(&mut out, "Adapter: ", &self.adapter_name);
        push_text_line(&mut out, "Feature level: ", &self.feature_level);
        push_text_line(&mut out, "Resource binding tier: ", &self.resource_binding_tier);
        push_text_line(&mut out, "Tiled resources tier: ", &self.tiled_resources_tier);
        push_text_line(&mut out, "Conservative rasterization tier: ", &self.conservative_rasterization_tier);
        push_text_line(&mut out, "Resource heap tier: ", &self.resource_heap_tier);
        push_text_line(&mut out, "Ray tracing tier: ", &self.raytracing_tier);
        push_text_line(&mut out, "Mesh shader tier: ", &self.mesh_shader_tier);
        push_text_line(&mut out, "Highest shader model: ", &self.highest_shader_model);
        push_bool_line(&mut out, "Wave ops supported: ", self.wave_ops_supported);
        push_count_line(&mut out, "Wave lane count min: ", self.wave_lane_count_min);
        push_count_line(&mut out, "Wave lane count max: ", self.wave_lane_count_max);
        push_count_line(&mut out, "Total wave lane count: ", self.total_lane_count);
        push_bool_line(&mut out, "Int64 shader ops supported: ", self.int64_shader_ops_supported);
        push_bool_line(&mut out, "UMA: ", self.uma);
        out.append("Cache coherent UMA: ");
        push_bool(&mut out, self.cache_coherent_uma);
        out
    }
}

// ---------------------------------------------------------------------------
// NUL-terminated UTF-16 names
// ---------------------------------------------------------------------------

/// Whether a code unit stands for a character by itself (is not half of a
/// surrogate pair).
pub open spec fn is_lone_unit(u: u16) -> bool {
    u < 0xD800 || u >= 0xE000
}

/// Whether a code unit is the first half of a surrogate pair.
pub open spec fn is_high_surrogate(u: u16) -> bool {
    0xD800 <= u < 0xDC00
}

/// Whether a code unit is the second half of a surrogate pair.
pub open spec fn is_low_surrogate(u: u16) -> bool {
    0xDC00 <= u < 0xE000
}

/// The character that a surrogate pair stands for.
pub open spec fn surrogate_pair_char(high: u16, low: u16) -> char {
    (0x10000 + (high - 0xD800) * 0x400 + (low - 0xDC00)) as char
}

/// UTF-16 decoding that replaces every unpaired surrogate with U+FFFD: a
/// non-surrogate unit is the character with the same number, a high
/// surrogate followed by a low one is the character of the pair.
pub open spec fn utf16_lossy(units: Seq<u16>) -> Seq<char>
    decreases units.len(),
{
    if units.len() == 0 {
        seq![]
    } else if is_lone_unit(units[0]) {
        seq![units[0] as char] + utf16_lossy(units.drop_first())
    } else if is_high_surrogate(units[0]) && units.len() >= 2 && is_low_surrogate(units[1]) {
        seq![surrogate_pair_char(units[0], units[1])] + utf16_lossy(units.subrange(2, units.len() as int))
    } else {
        seq!['\u{FFFD}'] + utf16_lossy(units.drop_first())
    }
}

/// Decoding units none of which is zero gives no NUL character.
pub proof fn lemma_utf16_lossy_nul_free(units: Seq<u16>)
    requires
        forall|i: int| 0 <= i < units.len() ==> units[i] != 0,
    ensures
        forall|j: int| 0 <= j < utf16_lossy(units).len() ==> utf16_lossy(units)[j] != '\0',
    decreases units.len(),
{
    if units.len() > 0 {
        let u = units[0];
        let out = utf16_lossy(units);
        if is_lone_unit(u) {
            let rest = units.drop_first();
            lemma_utf16_lossy_nul_free(rest);
            assert(out == seq![u as char] + utf16_lossy(rest));
            assert((u as char) as u32 == u as u32);
            assert('\0' as u32 == 0);
            assert forall|j: int| 0 <= j < out.len() implies out[j] != '\0' by {
                if j > 0 {
                    assert(out[j] == utf16_lossy(rest)[j - 1]);
                }
            }
        } else if is_high_surrogate(u) && units.len() >= 2 && is_low_surrogate(units[1]) {
            let rest = units.subrange(2, units.len() as int);
            lemma_utf16_lossy_nul_free(rest);
            assert(out == seq![surrogate_pair_char(u, units[1])] + utf16_lossy(rest));
            assert(surrogate_pair_char(u, units[1]) as u32 >= 0x10000);
            assert('\0' as u32 == 0);
            assert forall|j: int| 0 <= j < out.len() implies out[j] != '\0' by {
                if j > 0 {
                    assert(out[j] == utf16_lossy(rest)[j - 1]);
                }
            }
        } else {
            let rest = units.drop_first();
            lemma_utf16_lossy_nul_free(rest);
            assert(out == seq!['\u{FFFD}'] + utf16_lossy(rest));
            assert('\u{FFFD}' as u32 == 0xFFFD);
            assert('\0' as u32 == 0);
            assert forall|j: int| 0 <= j < out.len() implies out[j] != '\0' by {
                if j > 0 {
                    assert(out[j] == utf16_lossy(rest)[j - 1]);
                }
            }
        }
    }
}

/// Units none of which is a surrogate decode one for one, each to the
/// character with the same number.
pub proof fn law_utf16_lossy_plain_units(units: Seq<u16>)
    requires
        forall|i: int| 0 <= i < units.len() ==> is_lone_unit(#[trigger] units[i]),
    ensures
        utf16_lossy(units).len() == units.len(),
        forall|i: int| 0 <= i < units.len() ==> #[trigger] utf16_lossy(units)[i] == units[i] as char,
    decreases units.len(),
{
    if units.len() > 0 {
        let rest = units.drop_first();
        assert forall|i: int| 0 <= i < rest.len() implies is_lone_unit(#[trigger] rest[i]) by {
            assert(rest[i] == units[i + 1]);
        }
        law_utf16_lossy_plain_units(rest);
        let out = utf16_lossy(units);
        assert(out == seq![units[0] as char] + utf16_lossy(rest));
        assert forall|i: int| 0 <= i < units.len() implies #[trigger] out[i] == units[i] as char by {
            if i > 0 {
                assert(out[i] == utf16_lossy(rest)[i - 1]);
                assert(rest[i - 1] == units[i]);
            }
        }
    }
}

/// Decodes UTF-16 code units with `String::from_utf16_lossy`, which decodes
/// as `char::decode_utf16` does and replaces each unpaired surrogate with
/// U+FFFD: the contract states that decoding.
#[verifier::external_body]
fn decode_utf16_lossy(units: &[u16]) -> (s: String)
    ensures
        s@ == utf16_lossy(units@),
{
    String::from_utf16_lossy(units)
}

/// The length of a NUL-terminated name: the position of its first zero unit,
/// or the whole length when there is none.
pub open spec fn terminated_len(units: Seq<u16>) -> int {
    if exists|i: int| 0 <= i < units.len() && units[i] == 0 {
        choose|i: int| 0 <= i < units.len() && units[i] == 0 && forall|j: int| 0 <= j < i ==> units[j] != 0
    } else {
        units.len() as int
    }
}

/// A NUL-terminated name ends exactly at its first zero unit: every unit
/// before the end is non-zero, and the unit at the end, where there is one,
/// is zero.  A name with no zero unit is whole.
pub proof fn law_terminated_at_first_zero(units: Seq<u16>)
    ensures
        0 <= terminated_len(units) <= units.len(),
        forall|j: int| 0 <= j < terminated_len(units) ==> units[j] != 0,
        terminated_len(units) < units.len() ==> units[terminated_len(units)] == 0,
        (forall|j: int| 0 <= j < units.len() ==> units[j] != 0) ==> terminated_len(units) == units.len(),
{
    if exists|i: int| 0 <= i < units.len() && units[i] == 0 {
        let i0 = choose|i: int| 0 <= i < units.len() && units[i] == 0;
        lemma_first_zero_exists(units, i0);
    }
}

proof fn lemma_first_zero_exists(units: Seq<u16>, i: int)
    requires
        0 <= i < units.len(),
        units[i] == 0,
    ensures
        exists|f: int| 0 <= f < units.len() && units[f] == 0 && forall|j: int| 0 <= j < f ==> units[j] != 0,
    decreases i,
{
    if exists|j: int| 0 <= j < i && units[j] == 0 {
        let j = choose|j: int| 0 <= j < i && units[j] == 0;
        lemma_first_zero_exists(units, j);
    }
}

/// Decodes a NUL-terminated UTF-16 name, ignoring everything from the first
/// zero unit on.
pub fn utf16z_to_string(value: &[u16]) -> (s: String)
    ensures
        s@ == utf16_lossy(value@.subrange(0, terminated_len(value@))),
        forall|z: int| 0 <= z < value@.len() && value@[z] == 0 && (forall|j: int| 0 <= j < z ==> value@[j] != 0)
            ==> s@ == utf16_lossy(value@.subrange(0, z)),
        (forall|j: int| 0 <= j < value@.len() ==> value@[j] != 0) ==> s@ == utf16_lossy(value@),
        forall|j: int| 0 <= j < s@.len() ==> s@[j] != '\0',
{
    let n = value.len();
    let mut end: usize = 0;
    while end < n && value[end] != 0
        invariant
            end <= n == value@.len(),
            forall|j: int| 0 <= j < end ==> value@[j] != 0,
        decreases n - end,
    {
        end += 1;
    }
    proof {
        if end < n {
            assert(value@[end as int] == 0);
            let c = choose|i: int| 0 <= i < value@.len() && value@[i] == 0
                && forall|j: int| 0 <= j < i ==> value@[j] != 0;
            if c < end {
                assert(value@[c] != 0);
            }
            if c > end {
                assert(value@[end as int] != 0);
            }
        } else {
            if exists|i: int| 0 <= i < value@.len() && value@[i] == 0 {
                let i = choose|i: int| 0 <= i < value@.len() && value@[i] == 0;
                assert(value@[i] != 0);
            }
        }
        assert(end == terminated_len(value@));
    }
    let units = vstd::slice::slice_subrange(value, 0, end);
    proof {
        lemma_utf16_lossy_nul_free(units@);
        law_terminated_at_first_zero(value@);
        assert forall|z: int| 0 <= z < value@.len() && value@[z] == 0 && (forall|j: int| 0 <= j < z ==> value@[j] != 0)
            implies z == end by {
            if z < end {
                assert(value@[z] != 0);
            }
            if z > end {
                assert(value@[end as int] != 0);
            }
        }
        assert(value@.subrange(0, value@.len() as int) =~= value@);
    }
    decode_utf16_lossy(units)
}

// ---------------------------------------------------------------------------
// Read-back layout
// ---------------------------------------------------------------------------

/// Byte `col` of row `row` in a buffer whose rows start `stride` bytes apart.
pub open spec fn row_byte(bytes: Seq<u8>, stride: int, row: int, col: int) -> u8 {
    bytes[row * stride + col]
}

/// Bytes per pixel of the read-back texture (RGBA, 8 bits per channel).
pub const PIXEL_SIZE: usize = 4;

/// Copies the pixel rows of a `width` x `height` texture out of a read-back
/// buffer whose rows start `row_pitch` bytes apart, dropping the padding at
/// the end of each row (rows closer together than a row's length overlap).
pub fn copy_texture_rows(mapped: &[u8], row_pitch: usize, width: usize, height: usize) -> (pixels: Vec<u8>)
    requires
        width * PIXEL_SIZE <= usize::MAX,
        width * PIXEL_SIZE * height <= usize::MAX,
        height > 0 ==> (height - 1) * row_pitch + width * PIXEL_SIZE <= mapped@.len(),
    ensures
        pixels@.len() == width * PIXEL_SIZE * height,
        forall|row: int, col: int| 0 <= row < height && 0 <= col < width * PIXEL_SIZE
            ==> #[trigger] row_byte(pixels@, width * PIXEL_SIZE, row, col) == row_byte(mapped@, row_pitch as int, row, col),
{
    let bytes_per_row = width * PIXEL_SIZE;
    let mapped_len = mapped.len();
    let mut pixels: Vec<u8> = Vec::new();
    let mut row: usize = 0;
    while row < height
        invariant
            bytes_per_row == width * PIXEL_SIZE,
            mapped_len == mapped@.len(),
            bytes_per_row * height <= usize::MAX,
            height > 0 ==> (height - 1) * row_pitch + bytes_per_row <= mapped@.len(),
            row <= height,
            pixels@.len() == row * bytes_per_row,
            forall|r: int, c: int| 0 <= r < row && 0 <= c < bytes_per_row
                ==> #[trigger] row_byte(pixels@, bytes_per_row as int, r, c) == row_byte(mapped@, row_pitch as int, r, c),
        decreases height - row,
    {
        proof {
            assert(row * row_pitch <= (height - 1) * row_pitch) by (nonlinear_arith)
                requires row < height;
            assert(row * bytes_per_row + bytes_per_row <= bytes_per_row * height) by (nonlinear_arith)
                requires row < height;
            assert(row * row_pitch + bytes_per_row <= mapped@.len());
        }
        let source_offset = row * row_pitch;
        let mut col: usize = 0;
        while col < bytes_per_row
            invariant
                bytes_per_row == width * PIXEL_SIZE,
                row < height,
                source_offset == row * row_pitch,
                source_offset + bytes_per_row <= mapped_len,
                mapped_len == mapped@.len(),
                row * bytes_per_row + bytes_per_row <= usize::MAX,
                col <= bytes_per_row,
                pixels@.len() == row * bytes_per_row + col,
                forall|r: int, c: int| 0 <= r < row && 0 <= c < bytes_per_row
                    ==> #[trigger] row_byte(pixels@, bytes_per_row as int, r, c) == row_byte(mapped@, row_pitch as int, r, c),
                forall|c: int| 0 <= c < col ==> #[trigger] row_byte(pixels@, bytes_per_row as int, row as int, c)
                    == mapped@[source_offset + c],
            decreases bytes_per_row - col,
        {
            let ghost before = pixels@;
            pixels.push(mapped[source_offset + col]);
            proof {
                assert forall|r: int, c: int| 0 <= r < row && 0 <= c < bytes_per_row
                    implies #[trigger] row_byte(pixels@, bytes_per_row as int, r, c)
                        == row_byte(mapped@, row_pitch as int, r, c) by {
                    assert(r * bytes_per_row + c < row * bytes_per_row) by (nonlinear_arith)
                        requires 0 <= r < row, 0 <= c < bytes_per_row;
                    assert(row_byte(before, bytes_per_row as int, r, c) == row_byte(mapped@, row_pitch as int, r, c));
                }
                assert forall|c: int| 0 <= c < col + 1 implies #[trigger] row_byte(pixels@, bytes_per_row as int, row as int, c)
                    == mapped@[source_offset + c] by {
                    if c < col {
                        assert(row_byte(before, bytes_per_row as int, row as int, c) == mapped@[source_offset + c]);
                    }
                }
            }
            col += 1;
        }
        proof {
            assert(row * bytes_per_row + bytes_per_row == (row + 1) * bytes_per_row) by (nonlinear_arith);
            assert forall|r: int, c: int| 0 <= r < row + 1 && 0 <= c < bytes_per_row
                implies #[trigger] row_byte(pixels@, bytes_per_row as int, r, c)
                    == row_byte(mapped@, row_pitch as int, r, c) by {
                if r == row {
                    assert(row_byte(pixels@, bytes_per_row as int, row as int, c) == mapped@[source_offset + c]);
                }
            }
        }
        row += 1;
    }
    assert(row * bytes_per_row == width * PIXEL_SIZE * height) by (nonlinear_arith)
        requires row == height, bytes_per_row == width * PIXEL_SIZE;
    pixels
}

} // verus!
