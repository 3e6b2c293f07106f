//! Tests for `block`.

use lpc_lpir::{BlockData, Value};

#[test]
fn test_block_data_new() {
    let block_data = BlockData::new();
    assert_eq!(block_data.param_count(), 0);
}

#[test]
fn test_block_data_with_params() {
    let params = vec![Value::new(0), Value::new(1)];
    let block_data = BlockData::with_params(params.clone());
    assert_eq!(block_data.param_count(), 2);
    assert_eq!(block_data.params.len(), params.len());
}
