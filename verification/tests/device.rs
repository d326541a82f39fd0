use ai_gfx_dev::device::{copy_texture_rows, utf16z_to_string, WarpDeviceCapabilities};
use ai_gfx_dev::text::{push_bool, push_decimal};

fn sample_capabilities() -> WarpDeviceCapabilities {
    WarpDeviceCapabilities {
        adapter_name: "Microsoft Basic Render Driver".to_string(),
        feature_level: "12.1".to_string(),
        resource_binding_tier: "D3D12_RESOURCE_BINDING_TIER(3)".to_string(),
        tiled_resources_tier: "D3D12_TILED_RESOURCES_TIER(3)".to_string(),
        conservative_rasterization_tier: "D3D12_CONSERVATIVE_RASTERIZATION_TIER(3)".to_string(),
        resource_heap_tier: "D3D12_RESOURCE_HEAP_TIER(2)".to_string(),
        raytracing_tier: "Tier 1.1".to_string(),
        mesh_shader_tier: "Tier 1".to_string(),
        highest_shader_model: "6.6".to_string(),
        wave_ops_supported: true,
        wave_lane_count_min: 4,
        wave_lane_count_max: 128,
        total_lane_count: 1024,
        int64_shader_ops_supported: true,
        uma: true,
        cache_coherent_uma: false,
    }
}

#[test]
fn describes_device_capabilities() {
    let text = sample_capabilities().describe();
    let expected = "DX12 WARP device capabilities\n\
Adapter: Microsoft Basic Render Driver\n\
Feature level: 12.1\n\
Resource binding tier: D3D12_RESOURCE_BINDING_TIER(3)\n\
Tiled resources tier: D3D12_TILED_RESOURCES_TIER(3)\n\
Conservative rasterization tier: D3D12_CONSERVATIVE_RASTERIZATION_TIER(3)\n\
Resource heap tier: D3D12_RESOURCE_HEAP_TIER(2)\n\
Ray tracing tier: Tier 1.1\n\
Mesh shader tier: Tier 1\n\
Highest shader model: 6.6\n\
Wave ops supported: true\n\
Wave lane count min: 4\n\
Wave lane count max: 128\n\
Total wave lane count: 1024\n\
Int64 shader ops supported: true\n\
UMA: true\n\
Cache coherent UMA: false";
    assert_eq!(text, expected);
}

#[test]
fn decimal_and_bool_rendering() {
    let mut s = String::new();
    push_decimal(&mut s, 0);
    s.push(' ');
    push_decimal(&mut s, 4294967295);
    s.push(' ');
    push_decimal(&mut s, 1070);
    s.push(' ');
    push_bool(&mut s, false);
    assert_eq!(s, "0 4294967295 1070 false");
}

#[test]
fn decodes_nul_terminated_names() {
    let mut units: Vec<u16> = "WARP".encode_utf16().collect();
    units.extend([0, 'X' as u16, 'Y' as u16]);
    assert_eq!(utf16z_to_string(&units), "WARP");
    let unterminated: Vec<u16> = "Adapter".encode_utf16().collect();
    assert_eq!(utf16z_to_string(&unterminated), "Adapter");
    assert_eq!(utf16z_to_string(&[0, 65]), "");
    assert_eq!(utf16z_to_string(&[]), "");
    // A lone surrogate is replaced, a pair is decoded.
    assert_eq!(utf16z_to_string(&[0xD800, 0x41, 0]), "\u{FFFD}A");
    assert_eq!(utf16z_to_string(&[0xD83D, 0xDE00, 0]), "\u{1F600}");
    assert_eq!(utf16z_to_string(&[0xDC00, 0xD800]), "\u{FFFD}\u{FFFD}");
    assert_eq!(utf16z_to_string(&[0x00E9, 0xD800, 0xDC01, 0x7A]), "\u{E9}\u{10001}z");
}

#[test]
fn copies_rows_without_padding() {
    // Two rows of one pixel each, rows 6 bytes apart.
    let mapped: Vec<u8> = vec![1, 2, 3, 4, 90, 91, 5, 6, 7, 8, 92, 93];
    assert_eq!(copy_texture_rows(&mapped, 6, 1, 2), vec![1, 2, 3, 4, 5, 6, 7, 8]);
    assert_eq!(copy_texture_rows(&mapped, 6, 1, 0), Vec::<u8>::new());
}

#[test]
fn copies_checkerboard_rows() {
    let width = 8usize;
    let height = 8usize;
    let row_pitch = 256usize;
    let mut mapped = vec![0xAAu8; row_pitch * (height - 1) + width * 4];
    for y in 0..height {
        for x in 0..width {
            let value = if (x + y) % 2 == 0 { 255 } else { 0 };
            let offset = y * row_pitch + x * 4;
            mapped[offset..offset + 4].copy_from_slice(&[value, value, value, 255]);
        }
    }
    let pixels = copy_texture_rows(&mapped, row_pitch, width, height);
    assert_eq!(pixels.len(), width * height * 4);
    for y in 0..8 {
        for x in 0..8 {
            let offset = ((y * 8 + x) * 4) as usize;
            let expected = if (x + y) % 2 == 0 { [255, 255, 255, 255] } else { [0, 0, 0, 255] };
            assert_eq!(&pixels[offset..offset + 4], &expected);
        }
    }
}
