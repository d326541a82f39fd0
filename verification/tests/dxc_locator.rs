use ai_gfx_dev::dxc_locator::{find_dxc_library, vendored_dxc_components, DxcLocateError};

#[test]
fn vendored_library_components() {
    assert_eq!(vendored_dxc_components("dxcompiler.dll"), vec!["third_party", "dxc", "bin", "x64", "dxcompiler.dll"]);
}

#[test]
fn finds_existing_library() {
    let path = "/project/third_party/dxc/bin/x64/dxcompiler.dll".to_string();
    assert_eq!(find_dxc_library(path.clone(), true), Ok(path));
}

#[test]
fn reports_missing_library() {
    let path = "/project/third_party/dxc/bin/x64/dxil.dll".to_string();
    let err = find_dxc_library(path.clone(), false).unwrap_err();
    assert_eq!(err, DxcLocateError::NotFound { path: path.clone() });
    assert_eq!(err.message(), "Unable to locate vendored DXC library at /project/third_party/dxc/bin/x64/dxil.dll");
}
