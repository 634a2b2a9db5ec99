//! GPU execution backend framework.
//!
//! Device descriptors, buffers, kernels, an executor that holds them, and a
//! memory manager that grants allocations against a fixed budget. No GPU is
//! driven yet: kernel compilation and execution report `NotAvailable`.

use std::collections::HashMap;
use vstd::prelude::*;

verus! {

/// Errors that can occur during GPU operations.
#[derive(Debug)]
pub enum GpuError {
    /// GPU not available.
    NotAvailable,
    /// Unsupported GPU operation.
    UnsupportedOperation(String),
    /// GPU memory allocation failed.
    AllocationFailed(String),
    /// Kernel compilation failed.
    CompilationFailed(String),
    /// Kernel execution failed.
    ExecutionFailed(String),
    /// Data transfer failed.
    TransferFailed(String),
}

/// GPU backends.
#[derive(Debug, Clone, Copy, PartialEq, Eq, Structural)]
pub enum GpuBackend {
    /// NVIDIA CUDA
    Cuda,
    /// OpenCL (cross-platform)
    OpenCL,
    /// Vulkan Compute
    Vulkan,
    /// Apple Metal
    Metal,
    /// AMD ROCm
    Rocm,
}

/// GPU device information.
#[derive(Debug, Clone)]
pub struct GpuDevice {
    /// Device ID
    pub id: usize,
    /// Device name
    pub name: String,
    /// Backend type
    pub backend: GpuBackend,
    /// Total memory in bytes
    pub total_memory: usize,
    /// Available memory in bytes
    pub available_memory: usize,
    /// Compute capability (backend-specific)
    pub compute_capability: String,
    /// Number of compute units
    pub compute_units: usize,
}

impl GpuDevice {
    /// Create a device descriptor with no memory, no compute units and an
    /// "unknown" compute capability.
    pub fn new(id: usize, name: String, backend: GpuBackend) -> (d: Self)
        ensures
            d.id == id,
            d.name == name,
            d.backend == backend,
            d.total_memory == 0,
            d.available_memory == 0,
            d.compute_capability@ == "unknown"@,
            d.compute_units == 0,
    {
        GpuDevice {
            id,
            name,
            backend,
            total_memory: 0,
            available_memory: 0,
            compute_capability: "unknown".to_owned(),
            compute_units: 0,
        }
    }

    /// Whether the device has at least `required` bytes available.
    pub fn has_memory(&self, required: usize) -> (b: bool)
        ensures
            b == (self.available_memory >= required),
    {
        self.available_memory >= required
    }
}

/// GPU buffer for storing tensor data.
#[derive(Debug)]
pub struct GpuBuffer {
    /// Buffer ID
    id: usize,
    /// Size in bytes
    size: usize,
    /// Backend-specific handle (opaque)
    handle: Option<u64>,
}

impl GpuBuffer {
    /// The size of the buffer in bytes.
    pub closed spec fn size_view(&self) -> usize {
        self.size
    }

    /// Create a buffer descriptor of `size` bytes; no device memory is touched.
    pub fn new(size: usize) -> (res: Result<Self, GpuError>)
        ensures
            res matches Ok(b) && b.size_view() == size,
    {
        Ok(GpuBuffer { id: 0, size, handle: None })
    }

    /// The buffer size in bytes.
    pub fn size(&self) -> (s: usize)
        ensures
            s == self.size_view(),
    {
        self.size
    }
}

/// GPU kernel for executing operations.
#[derive(Debug)]
pub struct GpuKernel {
    /// Kernel name
    name: String,
    /// Compiled kernel handle
    handle: Option<u64>,
}

impl GpuKernel {
    /// The kernel's name.
    pub closed spec fn name_view(&self) -> Seq<char> {
        self.name@
    }

    /// Compile a kernel from source; no backend can compile yet.
    pub fn compile(name: &str, source: &str) -> (res: Result<Self, GpuError>)
        ensures
            res matches Err(GpuError::NotAvailable),
    {
        Err(GpuError::NotAvailable)
    }

    /// Launch the kernel; no backend can run it yet.
    pub fn execute(
        &self,
        inputs: &[&GpuBuffer],
        outputs: &mut [&mut GpuBuffer],
        workgroup_size: (usize, usize, usize),
    ) -> (res: Result<(), GpuError>)
        ensures
            res matches Err(GpuError::NotAvailable),
            final(outputs)@ == old(outputs)@,
    {
        Err(GpuError::NotAvailable)
    }

    /// The kernel's name.
    pub fn name(&self) -> (s: &str)
        ensures
            s@ == self.name_view(),
    {
        self.name.as_str()
    }
}

/// No two kernels of `ks` share a name.
pub open spec fn names_unique(ks: Seq<GpuKernel>) -> bool {
    forall|i: int, j: int|
        0 <= i < j < ks.len() ==> #[trigger] ks[i].name_view() != #[trigger] ks[j].name_view()
}

/// The names of the kernels of `ks`, in order.
pub open spec fn names_of(ks: Seq<GpuKernel>) -> Seq<Seq<char>> {
    ks.map_values(|k: GpuKernel| k.name_view())
}

/// Compiled kernels, at most one per name.
struct KernelCache {
    kernels: Vec<GpuKernel>,
}

impl KernelCache {
    #[verifier::type_invariant]
    spec fn unique(&self) -> bool {
        names_unique(self.kernels@)
    }

    spec fn names(&self) -> Seq<Seq<char>> {
        names_of(self.kernels@)
    }

    fn new() -> (c: Self)
        ensures
            c.names().len() == 0,
    {
        KernelCache { kernels: Vec::new() }
    }

    fn len(&self) -> (n: usize)
        ensures
            n == self.names().len(),
    {
        self.kernels.len()
    }

    /// Cache `kernel` under its name, replacing a kernel of the same name.
    fn insert(self, kernel: GpuKernel) -> (c: Self)
        ensures
            c.names().no_duplicates(),
            c.names().contains(kernel.name_view()),
            forall|n: Seq<char>|
                c.names().contains(n) <==> (self.names().contains(n) || n == kernel.name_view()),
    {
        proof {
            use_type_invariant(&self);
        }
        let ghost s0 = self.names();
        let KernelCache { kernels: mut ks } = self;
        let ghost k0 = ks@;
        let mut i: usize = 0;
        while i < ks.len()
            invariant
                ks@ == k0,
                s0 == names_of(k0),
                s0 == self.names(),
                names_unique(k0),
                i <= k0.len(),
                forall|k: int| 0 <= k < i ==> k0[k].name_view() != kernel.name_view(),
            decreases k0.len() - i,
        {
            if ks[i].name == kernel.name {
                assert(names_of(k0)[i as int] == kernel.name_view());
                ks.set(i, kernel);
                proof {
                    assert forall|a: int, b: int| 0 <= a < b < ks@.len() implies #[trigger] ks@[
                        a].name_view() != #[trigger] ks@[b].name_view() by {
                        assert(k0[a].name_view() != k0[b].name_view());
                    }
                    assert(names_of(ks@) =~= names_of(k0));
                }
                let c = KernelCache { kernels: ks };
                proof {
                    lemma_unique_no_duplicates(ks@);
                    assert(c.names() == names_of(k0));
                    assert(c.names()[i as int] == kernel.name_view());
                    assert forall|n: Seq<char>| c.names().contains(n) <==> (names_of(k0).contains(n)
                        || n == kernel.name_view()) by {
                        if n == kernel.name_view() {
                            assert(c.names()[i as int] == n);
                        }
                    }
                }
                return c;
            }
            i += 1;
        }
        ks.push(kernel);
        proof {
            assert forall|a: int, b: int| 0 <= a < b < ks@.len() implies #[trigger] ks@[
                a].name_view() != #[trigger] ks@[b].name_view() by {
                if b == k0.len() {
                    assert(ks@[a] == k0[a]);
                } else {
                    assert(ks@[a] == k0[a] && ks@[b] == k0[b]);
                }
            }
            let nn = names_of(ks@);
            let n0 = names_of(k0);
            assert(nn =~= n0.push(kernel.name_view()));
            assert(nn[k0.len() as int] == kernel.name_view());
            assert forall|n: Seq<char>| nn.contains(n) <==> (n0.contains(n) || n
                == kernel.name_view()) by {
                if nn.contains(n) {
                    let k = choose|k: int| 0 <= k < nn.len() && nn[k] == n;
                    if k < n0.len() {
                        assert(n0[k] == n);
                    }
                }
                if n0.contains(n) {
                    let k = choose|k: int| 0 <= k < n0.len() && n0[k] == n;
                    assert(nn[k] == n);
                }
            }
            lemma_unique_no_duplicates(ks@);
        }
        KernelCache { kernels: ks }
    }
}

proof fn lemma_unique_no_duplicates(ks: Seq<GpuKernel>)
    requires
        names_unique(ks),
    ensures
        names_of(ks).no_duplicates(),
{
    assert forall|i: int, j: int|
        0 <= i < names_of(ks).len() && 0 <= j < names_of(ks).len() && i != j implies names_of(
        ks)[i] != names_of(ks)[j] by {
        if i < j {
            assert(ks[i].name_view() != ks[j].name_view());
        } else {
            assert(ks[j].name_view() != ks[i].name_view());
        }
    }
}

/// GPU executor for computation graphs.
pub struct GpuExecutor {
    /// Selected device
    device: Option<GpuDevice>,
    /// Compiled kernels
    kernels: KernelCache,
    /// Buffer pool
    buffers: Vec<GpuBuffer>,
}

impl GpuExecutor {
    /// The selected device.
    pub closed spec fn device_view(&self) -> Option<GpuDevice> {
        self.device
    }

    /// The names of the cached kernels.
    pub closed spec fn kernel_names(&self) -> Seq<Seq<char>> {
        self.kernels.names()
    }

    /// The sizes of the allocated buffers, by buffer id.
    pub closed spec fn buffer_sizes(&self) -> Seq<usize> {
        self.buffers@.map_values(|b: GpuBuffer| b.size_view())
    }

    /// Create an executor with no device, kernel or buffer.
    pub fn new() -> (e: Self)
        ensures
            e.device_view() is None,
            e.kernel_names().len() == 0,
            e.buffer_sizes().len() == 0,
    {
        GpuExecutor { device: None, kernels: KernelCache::new(), buffers: Vec::new() }
    }

    /// Select a GPU device.
    pub fn select_device(&mut self, device: GpuDevice)
        ensures
            final(self).device_view() == Some(device),
            final(self).kernel_names() == old(self).kernel_names(),
            final(self).buffer_sizes() == old(self).buffer_sizes(),
    {
        self.device = Some(device);
    }

    /// List available GPU devices; none can be enumerated yet.
    pub fn list_devices() -> (res: Result<Vec<GpuDevice>, GpuError>)
        ensures
            res matches Ok(v) && v@.len() == 0,
    {
        Ok(Vec::new())
    }

    /// Whether a device is selected.
    pub fn is_available(&self) -> (b: bool)
        ensures
            b == self.device_view() is Some,
    {
        self.device.is_some()
    }

    /// The selected device, if any.
    pub fn device(&self) -> (res: Option<&GpuDevice>)
        ensures
            match self.device_view() {
                Some(d) => res == Some(&d),
                None => res is None,
            },
    {
        match &self.device {
            Some(d) => Some(d),
            None => None,
        }
    }

    /// Allocate a buffer of `size` bytes; its id is its index in the pool.
    pub fn allocate_buffer(&mut self, size: usize) -> (res: Result<usize, GpuError>)
        ensures
            res == Ok::<usize, GpuError>(old(self).buffer_sizes().len() as usize),
            final(self).buffer_sizes() == old(self).buffer_sizes().push(size),
            final(self).device_view() == old(self).device_view(),
            final(self).kernel_names() == old(self).kernel_names(),
    {
        let buffer = match GpuBuffer::new(size) {
            Ok(b) => b,
            Err(e) => {
                return Err(e);
            },
        };
        let id = self.buffers.len();
        let ghost before = self.buffers@;
        self.buffers.push(buffer);
        assert(self.buffers@.map_values(|b: GpuBuffer| b.size_view()) =~= before.map_values(
            |b: GpuBuffer| b.size_view(),
        ).push(size));
        Ok(id)
    }

    /// Free buffer `id`; later buffers move down one id. Unknown ids are ignored.
    pub fn free_buffer(&mut self, id: usize)
        ensures
            id < old(self).buffer_sizes().len() ==> final(self).buffer_sizes() == old(
                self,
            ).buffer_sizes().remove(id as int),
            id >= old(self).buffer_sizes().len() ==> final(self).buffer_sizes() == old(
                self,
            ).buffer_sizes(),
            final(self).device_view() == old(self).device_view(),
            final(self).kernel_names() == old(self).kernel_names(),
    {
        if id < self.buffers.len() {
            let ghost before = self.buffers@;
            self.buffers.remove(id);
            assert(self.buffers@.map_values(|b: GpuBuffer| b.size_view()) =~= before.map_values(
                |b: GpuBuffer| b.size_view(),
            ).remove(id as int));
        }
    }

    /// Cache `kernel` under its name, replacing a kernel of the same name.
    fn insert_kernel(&mut self, kernel: GpuKernel)
        ensures
            final(self).kernel_names().no_duplicates(),
            final(self).kernel_names().contains(kernel.name_view()),
            forall|n: Seq<char>|
                final(self).kernel_names().contains(n) <==> (old(self).kernel_names().contains(n)
                    || n == kernel.name_view()),
            final(self).device_view() == old(self).device_view(),
            final(self).buffer_sizes() == old(self).buffer_sizes(),
    {
        let mut cache = KernelCache::new();
        std::mem::swap(&mut cache, &mut self.kernels);
        self.kernels = cache.insert(kernel);
    }

    /// Compile `source` and cache the kernel under `name`; as no backend can
    /// compile yet, this reports `NotAvailable` and caches nothing.
    pub fn compile_kernel(&mut self, name: &str, source: &str) -> (res: Result<(), GpuError>)
        ensures
            res matches Err(GpuError::NotAvailable),
            final(self).kernel_names() == old(self).kernel_names(),
            final(self).device_view() == old(self).device_view(),
            final(self).buffer_sizes() == old(self).buffer_sizes(),
    {
        let kernel = match GpuKernel::compile(name, source) {
            Ok(k) => k,
            Err(e) => {
                return Err(e);
            },
        };
        self.insert_kernel(kernel);
        Ok(())
    }

    /// The number of cached kernels.
    pub fn kernel_count(&self) -> (n: usize)
        ensures
            n == self.kernel_names().len(),
    {
        self.kernels.len()
    }

    /// The number of allocated buffers.
    pub fn buffer_count(&self) -> (n: usize)
        ensures
            n == self.buffer_sizes().len(),
    {
        self.buffers.len()
    }
}

impl Default for GpuExecutor {
    fn default() -> (e: Self)
        ensures
            e.device_view() is None,
            e.kernel_names().len() == 0,
            e.buffer_sizes().len() == 0,
    {
        Self::new()
    }
}

// ─── Memory manager ──────────────────────────────────────────────────────────

/// The total size of the allocations with an id below `n`.
pub open spec fn sum_below(m: Map<usize, usize>, n: nat) -> nat
    decreases n,
{
    if n == 0 {
        0
    } else {
        let k = (n - 1) as usize;
        sum_below(m, (n - 1) as nat) + if m.contains_key(k) {
            m[k] as nat
        } else {
            0nat
        }
    }
}

/// Every allocation id is below `n`.
pub open spec fn ids_below(m: Map<usize, usize>, n: nat) -> bool {
    forall|k: usize| m.contains_key(k) ==> (k as nat) < n
}

pub proof fn lemma_sum_update(m: Map<usize, usize>, k: usize, n: nat, m2: Map<usize, usize>)
    requires
        (k as nat) < n,
        n <= usize::MAX as nat + 1,
        forall|j: usize| j != k ==> (m.contains_key(j) <==> m2.contains_key(j)),
        forall|j: usize| j != k && m.contains_key(j) ==> m[j] == m2[j],
    ensures
        sum_below(m2, n) + (if m.contains_key(k) { m[k] as int } else { 0 }) == sum_below(m, n) + (
        if m2.contains_key(k) {
            m2[k] as int
        } else {
            0
        }),
    decreases n,
{
    if n > 0 {
        if (n - 1) as nat == k as nat {
            lemma_sum_same(m, m2, (n - 1) as nat, k);
        } else {
            lemma_sum_update(m, k, (n - 1) as nat, m2);
        }
    }
}

pub proof fn lemma_sum_same(m: Map<usize, usize>, m2: Map<usize, usize>, n: nat, k: usize)
    requires
        n <= k as nat,
        forall|j: usize| j != k ==> (m.contains_key(j) <==> m2.contains_key(j)),
        forall|j: usize| j != k && m.contains_key(j) ==> m[j] == m2[j],
    ensures
        sum_below(m, n) == sum_below(m2, n),
    decreases n,
{
    if n > 0 {
        lemma_sum_same(m, m2, (n - 1) as nat, k);
    }
}

pub proof fn lemma_sum_bounds_entry(m: Map<usize, usize>, k: usize, n: nat)
    requires
        (k as nat) < n,
        n <= usize::MAX as nat + 1,
        m.contains_key(k),
    ensures
        m[k] as nat <= sum_below(m, n),
    decreases n,
{
    if (n - 1) as nat != k as nat {
        lemma_sum_bounds_entry(m, k, (n - 1) as nat);
    }
}

/// GPU memory manager: grants allocations against a fixed memory budget.
pub struct GpuMemoryManager {
    /// Total memory budget
    total_memory: usize,
    /// Currently allocated memory
    allocated: usize,
    /// Allocation tracking: id → size
    allocations: HashMap<usize, usize>,
    /// An upper bound on every id handed out so far.
    issued: Ghost<nat>,
}

impl GpuMemoryManager {
    /// The budget never runs over, every id lies below the bound, and the live
    /// allocations never add up to more than the counted total.
    #[verifier::type_invariant]
    spec fn well_formed(&self) -> bool {
        &&& self.allocated <= self.total_memory
        &&& self.issued@ <= usize::MAX as nat + 1
        &&& ids_below(self.allocations@, self.issued@)
        &&& sum_below(self.allocations@, self.issued@) <= self.allocated
    }

    /// The memory budget.
    pub closed spec fn budget(&self) -> usize {
        self.total_memory
    }

    /// The memory counted as allocated.
    pub closed spec fn in_use(&self) -> usize {
        self.allocated
    }

    /// The live allocations, by id.
    pub closed spec fn allocation_map(&self) -> Map<usize, usize> {
        self.allocations@
    }

    /// A manager with no budget, used as a placeholder while one is rebuilt.
    fn empty() -> (m: Self)
        ensures
            m.budget() == 0,
    {
        GpuMemoryManager { total_memory: 0, allocated: 0, allocations: HashMap::new(), issued: Ghost(0) }
    }

    /// Create a manager with a budget of `total_memory` bytes.
    pub fn new(total_memory: usize) -> (m: Self)
        ensures
            m.budget() == total_memory,
            m.in_use() == 0,
            m.allocation_map() == Map::<usize, usize>::empty(),
    {
        GpuMemoryManager {
            total_memory,
            allocated: 0,
            allocations: HashMap::new(),
            issued: Ghost(0),
        }
    }

    /// Allocate `size` bytes. Fails when that would exceed the budget; otherwise
    /// the id is the number of live allocations, and an entry with that id is
    /// replaced.
    pub fn allocate(&mut self, size: usize) -> (res: Result<usize, GpuError>)
        ensures
            old(self).in_use() + size > old(self).budget() ==> (res matches Err(
                GpuError::AllocationFailed(_),
            )) && final(self).in_use() == old(self).in_use() && final(self).allocation_map()
                == old(self).allocation_map(),
            old(self).in_use() + size <= old(self).budget() ==> res == Ok::<usize, GpuError>(
                old(self).allocation_map().len() as usize,
            ) && final(self).in_use() == old(self).in_use() + size
                && final(self).allocation_map() == old(self).allocation_map().insert(
                old(self).allocation_map().len() as usize,
                size,
            ),
            final(self).budget() == old(self).budget(),
            final(self).in_use() <= final(self).budget(),
    {
        broadcast use vstd::std_specs::hash::group_hash_axioms;

        proof {
            use_type_invariant(&*self);
        }
        if size > self.total_memory - self.allocated {
            return Err(GpuError::AllocationFailed("Insufficient GPU memory".to_owned()));
        }
        let mut taken = GpuMemoryManager::empty();
        std::mem::swap(&mut taken, self);
        proof {
            use_type_invariant(&taken);
        }
        let GpuMemoryManager { total_memory, allocated, mut allocations, issued } = taken;
        let id = allocations.len();
        let ghost m0 = allocations@;
        let ghost n0 = issued@;
        let ghost n1: nat = if (id as nat) < n0 {
            n0
        } else {
            id as nat + 1
        };
        allocations.insert(id, size);
        proof {
            let m1 = allocations@;
            assert(m1 == m0.insert(id, size));
            if n1 > n0 {
                lemma_sum_extend(m0, n0, n1);
            }
            lemma_sum_update(m0, id, n1, m1);
            if m0.contains_key(id) {
                lemma_sum_bounds_entry(m0, id, n1);
            }
            assert(ids_below(m1, n1));
        }
        *self = GpuMemoryManager {
            total_memory,
            allocated: allocated + size,
            allocations,
            issued: Ghost(n1),
        };
        Ok(id)
    }

    /// Free allocation `id`, returning its size to the budget; unknown ids are ignored.
    pub fn free(&mut self, id: usize)
        ensures
            old(self).allocation_map().contains_key(id) ==> final(self).allocation_map() == old(
                self,
            ).allocation_map().remove(id) && final(self).in_use() == old(self).in_use() - old(
                self,
            ).allocation_map()[id],
            !old(self).allocation_map().contains_key(id) ==> final(self).allocation_map() == old(
                self,
            ).allocation_map() && final(self).in_use() == old(self).in_use(),
            final(self).budget() == old(self).budget(),
            final(self).in_use() <= final(self).budget(),
    {
        broadcast use vstd::std_specs::hash::group_hash_axioms;

        proof {
            use_type_invariant(&*self);
        }
        let mut taken = GpuMemoryManager::empty();
        std::mem::swap(&mut taken, self);
        proof {
            use_type_invariant(&taken);
        }
        let GpuMemoryManager { total_memory, allocated, mut allocations, issued } = taken;
        let ghost m0 = allocations@;
        let ghost n0 = issued@;
        let removed = allocations.remove(&id);
        let mut remaining = allocated;
        match removed {
            Some(size) => {
                proof {
                    let m1 = allocations@;
                    assert(m1 == m0.remove(id));
                    assert((id as nat) < n0);
                    lemma_sum_update(m0, id, n0, m1);
                    lemma_sum_bounds_entry(m0, id, n0);
                }
                remaining = allocated - size;
            },
            None => {
                proof {
                    assert(allocations@ == m0);
                }
            },
        }
        *self = GpuMemoryManager { total_memory, allocated: remaining, allocations, issued };
    }

    /// The memory still available in the budget.
    pub fn available(&self) -> (n: usize)
        ensures
            self.in_use() <= self.budget(),
            n == self.budget() - self.in_use(),
    {
        proof {
            use_type_invariant(self);
        }
        self.total_memory - self.allocated
    }

    /// The memory budget, in bytes.
    pub fn total(&self) -> (n: usize)
        ensures
            n == self.budget(),
    {
        self.total_memory
    }

    /// The memory counted as allocated, in bytes.
    pub fn allocated(&self) -> (n: usize)
        ensures
            n == self.in_use(),
    {
        self.allocated
    }
}

pub proof fn lemma_sum_extend(m: Map<usize, usize>, n: nat, n2: nat)
    requires
        ids_below(m, n),
        n <= n2,
        n2 <= usize::MAX as nat + 1,
    ensures
        sum_below(m, n2) == sum_below(m, n),
    decreases n2,
{
    if n2 > n {
        lemma_sum_extend(m, n, (n2 - 1) as nat);
        let k = (n2 - 1) as usize;
        assert(k as nat == (n2 - 1) as nat);
        assert(!m.contains_key(k));
    }
}

} // verus!
