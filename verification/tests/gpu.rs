use ipfrs_tensorlogic::gpu::{GpuBackend, GpuBuffer, GpuDevice, GpuError, GpuExecutor, GpuKernel, GpuMemoryManager};

#[test]
fn test_gpu_device() {
    let device = GpuDevice::new(0, "Test GPU".to_string(), GpuBackend::Cuda);
    assert_eq!(device.id, 0);
    assert_eq!(device.name, "Test GPU");
    assert_eq!(device.backend, GpuBackend::Cuda);
}

#[test]
fn test_gpu_executor() {
    let executor = GpuExecutor::new();
    assert!(!executor.is_available());
    assert_eq!(executor.kernel_count(), 0);
    assert_eq!(executor.buffer_count(), 0);
}

#[test]
fn test_gpu_executor_with_device() {
    let mut executor = GpuExecutor::new();
    let device = GpuDevice::new(0, "Test".to_string(), GpuBackend::Cuda);

    executor.select_device(device);
    assert!(executor.is_available());
    assert_eq!(executor.device().expect("test: should succeed").id, 0);
}

#[test]
fn test_gpu_buffer_creation() {
    let result = GpuBuffer::new(1024);
    assert!(result.is_ok());
}

#[test]
fn test_list_devices() {
    let devices = GpuExecutor::list_devices().expect("test: should succeed");
    assert_eq!(devices.len(), 0);
}

#[test]
fn test_device_defaults_and_has_memory() {
    let mut device = GpuDevice::new(3, "Dev".to_string(), GpuBackend::Vulkan);
    assert_eq!(device.total_memory, 0);
    assert_eq!(device.available_memory, 0);
    assert_eq!(device.compute_capability, "unknown");
    assert_eq!(device.compute_units, 0);
    assert!(device.has_memory(0));
    assert!(!device.has_memory(1));
    device.total_memory = 1000;
    device.available_memory = 600;
    assert!(device.has_memory(500));
    assert!(device.has_memory(600));
    assert!(!device.has_memory(700));
}

#[test]
fn test_buffer_size_and_pool_ids() {
    let buffer = GpuBuffer::new(2048).expect("buffer");
    assert_eq!(buffer.size(), 2048);

    let mut executor = GpuExecutor::default();
    assert_eq!(executor.allocate_buffer(16).expect("first"), 0);
    assert_eq!(executor.allocate_buffer(32).expect("second"), 1);
    assert_eq!(executor.allocate_buffer(64).expect("third"), 2);
    assert_eq!(executor.buffer_count(), 3);
    executor.free_buffer(7);
    assert_eq!(executor.buffer_count(), 3);
    executor.free_buffer(0);
    assert_eq!(executor.buffer_count(), 2);
    assert_eq!(executor.allocate_buffer(8).expect("fourth"), 2);
}

#[test]
fn test_kernel_compilation_not_available() {
    assert!(matches!(GpuKernel::compile("add", "src"), Err(GpuError::NotAvailable)));
    let mut executor = GpuExecutor::new();
    assert!(matches!(executor.compile_kernel("add", "src"), Err(GpuError::NotAvailable)));
    assert_eq!(executor.kernel_count(), 0);
}

#[test]
fn test_memory_manager_budget() {
    let mut manager = GpuMemoryManager::new(1000);
    assert_eq!(manager.available(), 1000);

    let id1 = manager.allocate(400).expect("first allocation");
    assert_eq!(id1, 0);
    assert_eq!(manager.available(), 600);

    let id2 = manager.allocate(300).expect("second allocation");
    assert_eq!(id2, 1);
    assert_eq!(manager.available(), 300);

    assert!(matches!(manager.allocate(400), Err(GpuError::AllocationFailed(_))));
    assert_eq!(manager.available(), 300);

    manager.free(id1);
    assert_eq!(manager.available(), 700);
    manager.free(id1);
    assert_eq!(manager.available(), 700);

    manager.free(id2);
    assert_eq!(manager.available(), 1000);
}

#[test]
fn test_memory_manager_exact_fit() {
    let mut manager = GpuMemoryManager::new(100);
    assert_eq!(manager.allocate(100).expect("fits exactly"), 0);
    assert_eq!(manager.available(), 0);
    assert!(manager.allocate(1).is_err());
    assert_eq!(manager.allocate(0).expect("zero fits"), 1);
}
