//! Reading the ambient light.

pub mod iio_sensors_proxy;
pub mod laws;
