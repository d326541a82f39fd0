//! Planning of compute graphs (resources, node ordering, barriers) and the
//! plain-value parts of the DX12 sample: device capability reports, DXC
//! location and texture readback layout.

pub mod text;
pub mod graph_config;
pub mod dxc_locator;
pub mod device;
pub mod plan_laws;
pub mod name_order;
