//! Device facade: the decisions around buffers, dispatches, readback and memory import.
//!
//! The device itself is driven elsewhere. What stands here decides: how large things are,
//! which path a read takes, when a frame is fresh, whether memory can be imported and what
//! has to be released when an import fails.

use vstd::prelude::*;

use crate::text::decimal;

verus! {

/// What can go wrong with the device.
#[derive(Debug)]
pub enum GpuError {
    NoAdapter,
    Device(String),
    Compile(String),
    Function(String),
    Internal(String),
}

impl GpuError {
    /// The message that a reader of the error sees.
    pub open spec fn text(&self) -> Seq<char> {
        match *self {
            GpuError::NoAdapter => "no wgpu adapter available"@,
            GpuError::Device(e) => "wgpu device: "@ + e@,
            GpuError::Compile(e) => "shader compile: "@ + e@,
            GpuError::Function(e) => "shader function: "@ + e@,
            GpuError::Internal(e) => "gpu internal: "@ + e@,
        }
    }

    /// Writes the message that a reader of the error sees.
    pub fn message(&self) -> (r: String)
        ensures
            r@ == self.text(),
    {
        match self {
            GpuError::NoAdapter => String::from_str("no wgpu adapter available"),
            GpuError::Device(e) => String::from_str("wgpu device: ").concat(e.as_str()),
            GpuError::Compile(e) => String::from_str("shader compile: ").concat(e.as_str()),
            GpuError::Function(e) => String::from_str("shader function: ").concat(e.as_str()),
            GpuError::Internal(e) => String::from_str("gpu internal: ").concat(e.as_str()),
        }
    }
}

// ── Sizes ────────────────────────────────────────────────────────────────────

/// The size that a buffer for `size` bytes is created with: at least four.
pub fn storage_size(size: usize) -> (r: u64)
    ensures
        r == if size < 4 {
            4
        } else {
            size as int
        },
{
    if size < 4 {
        4
    } else {
        size as u64
    }
}

/// How many bytes of a mapping belong to a buffer of `size` bytes.
pub fn usable_len(size: usize, mapped: usize) -> (r: usize)
    ensures
        r == if size < mapped {
            size
        } else {
            mapped
        },
{
    if size < mapped {
        size
    } else {
        mapped
    }
}

/// The length that uniform data of `len` bytes is padded to: the next multiple of 16.
pub open spec fn padded_len(len: nat) -> nat {
    (len + 15) / 16 * 16
}

/// Pads uniform data with zeros to a multiple of 16 bytes.
pub fn pad_uniform(data: &[u8]) -> (padded: Vec<u8>)
    ensures
        padded.len() == padded_len(data@.len()),
        forall|i: int|
            0 <= i < padded.len() ==> #[trigger] padded[i] == if i < data.len() {
                data[i]
            } else {
                0u8
            },
{
    let mut padded: Vec<u8> = Vec::new();
    let mut k: usize = 0;
    while k < data.len()
        invariant
            k <= data.len(),
            padded.len() == k,
            forall|i: int| 0 <= i < k ==> #[trigger] padded[i] == data[i],
        decreases data.len() - k,
    {
        padded.push(data[k]);
        k = k + 1;
    }
    while padded.len() % 16 != 0
        invariant
            data.len() <= padded.len() <= padded_len(data@.len()),
            forall|i: int|
                0 <= i < padded.len() ==> #[trigger] padded[i] == if i < data.len() {
                    data[i]
                } else {
                    0u8
                },
        decreases padded_len(data@.len()) - padded.len(),
    {
        padded.push(0);
    }
    padded
}

/// The number of groups of size `group` that cover `grid` threads; a group size of zero
/// counts as one.
pub open spec fn group_count(grid: nat, group: nat) -> nat {
    let size = if group == 0 {
        1
    } else {
        group
    };
    if grid % size == 0 {
        grid / size
    } else {
        grid / size + 1
    }
}

fn groups_along(grid: usize, group: usize) -> (r: u32)
    ensures
        r == group_count(grid as nat, group as nat) as u32,
{
    let size: usize = if group == 0 {
        1
    } else {
        group
    };
    let whole: usize = grid / size;
    let rest: usize = grid % size;
    if rest == 0 {
        #[verifier::truncate]
        (whole as u32)
    } else {
        proof {
            assert(whole < usize::MAX) by (nonlinear_arith)
                requires
                    whole == grid / size,
                    rest == grid % size,
                    rest > 0,
                    size > 0,
                    grid <= usize::MAX,
            ;
        }
        #[verifier::truncate]
        ((whole + 1) as u32)
    }
}

/// The workgroups that cover an exact grid of threads, rounded up along each axis.
pub fn workgroups(grid: (usize, usize, usize), group: (usize, usize, usize)) -> (r: (u32, u32, u32))
    ensures
        r.0 == group_count(grid.0 as nat, group.0 as nat) as u32,
        r.1 == group_count(grid.1 as nat, group.1 as nat) as u32,
        r.2 == group_count(grid.2 as nat, group.2 as nat) as u32,
{
    (
        groups_along(grid.0, group.0),
        groups_along(grid.1, group.1),
        groups_along(grid.2, group.2),
    )
}

/// Law: the workgroups of a launch cover its grid, and one fewer would not.
pub proof fn law_workgroups_cover_grid(grid: nat, group: nat)
    requires
        group > 0,
    ensures
        group_count(grid, group) * group >= grid,
        grid > 0 ==> (group_count(grid, group) - 1) * group < grid,
{
    let q = grid / group;
    let r = grid % group;
    vstd::arithmetic::div_mod::lemma_fundamental_div_mod(grid as int, group as int);
    assert(grid == group * q + r);
    assert((q + 1) * group == group * q + group) by (nonlinear_arith);
    assert((q - 1) * group == group * q - group) by (nonlinear_arith);
    assert(q * group == group * q) by (nonlinear_arith);
}

/// Whether a read or write maps the buffer itself: the device allows it, and the storage is
/// not imported memory.
pub fn is_direct(mappable: bool, imported: bool) -> (r: bool)
    ensures
        r == (mappable && !imported),
{
    mappable && !imported
}

// ── Frame readback ───────────────────────────────────────────────────────────

/// What became of a requested mapping.
#[derive(Debug, Clone, Copy, PartialEq, Eq, Structural)]
pub enum MapOutcome {
    /// The mapping is there.
    Ready,
    /// The mapping failed, or nobody will report it any more.
    Failed,
    /// The mapping is still under way.
    Waiting,
}

/// Readback of the frame through a persistent staging buffer: a fetch takes over the
/// previous frame if its mapping has arrived, and requests the current one. At most one
/// mapping is under way at any time.
pub struct FrameReader {
    staging: Option<u64>,
    pending: bool,
}

impl FrameReader {
    /// The size of the staging buffer, if there is one.
    pub closed spec fn staging_size(&self) -> Option<u64> {
        self.staging
    }

    /// A mapping is under way.
    pub closed spec fn is_pending(&self) -> bool {
        self.pending
    }

    pub fn new() -> (reader: Self)
        ensures
            reader.staging_size() is None,
            !reader.is_pending(),
    {
        FrameReader { staging: None, pending: false }
    }

    /// Starts a fetch of a frame of `size` bytes. True: a staging buffer of that size has to
    /// be made first, and what was under way is forgotten.
    pub fn begin(&mut self, size: u64) -> (make_staging: bool)
        ensures
            make_staging == (old(self).staging_size() != Some(size)),
            final(self).staging_size() == Some(size),
            final(self).is_pending() == (old(self).is_pending() && !make_staging),
    {
        let same: bool = match self.staging {
            Some(s) => s == size,
            None => false,
        };
        if same {
            return false;
        }
        self.staging = Some(size);
        self.pending = false;
        true
    }

    /// Whether there is a mapping to ask after.
    pub fn awaits(&self) -> (r: bool)
        ensures
            r == self.is_pending(),
    {
        self.pending
    }

    /// Takes note of what became of the mapping. True: the frame is fresh, has to be copied
    /// and the staging buffer unmapped.
    pub fn resolve(&mut self, outcome: MapOutcome) -> (fresh: bool)
        ensures
            fresh == (old(self).is_pending() && outcome == MapOutcome::Ready),
            final(self).is_pending() == (old(self).is_pending() && outcome == MapOutcome::Waiting),
            final(self).staging_size() == old(self).staging_size(),
    {
        if !self.pending {
            return false;
        }
        match outcome {
            MapOutcome::Ready => {
                self.pending = false;
                true
            },
            MapOutcome::Failed => {
                self.pending = false;
                false
            },
            MapOutcome::Waiting => false,
        }
    }

    /// Ends a fetch. True: the current frame has to be copied to the staging buffer and its
    /// mapping requested, because none is under way.
    pub fn request(&mut self) -> (submit: bool)
        ensures
            submit == !old(self).is_pending(),
            final(self).is_pending(),
            final(self).staging_size() == old(self).staging_size(),
    {
        let submit: bool = !self.pending;
        self.pending = true;
        submit
    }
}

/// Copies the beginning of a mapped frame, as far as both reach.
pub fn copy_frame(dst: &mut Vec<u8>, view: &[u8])
    ensures
        final(dst).len() == old(dst).len(),
        forall|i: int|
            0 <= i < old(dst).len() ==> #[trigger] final(dst)@[i] == if i < view.len() {
                view[i]
            } else {
                old(dst)@[i]
            },
{
    crate::frame::tiers::tinf::take_over(dst, view)
}

// ── Memory import ────────────────────────────────────────────────────────────

/// How memory is imported.
#[derive(Debug, Clone, Copy, PartialEq, Eq, Structural)]
pub enum ImportVia {
    /// By a pointer to host memory (`VK_EXT_external_memory_host`).
    HostPointer,
    /// By the handle of an Android hardware buffer.
    HardwareBuffer,
}

/// The block of memory to import.
#[derive(Debug, Clone, Copy, PartialEq, Eq, Structural)]
pub struct HostBlock {
    pub address: usize,
    /// bytes that the owner asked for
    pub size: usize,
    /// bytes that were allocated
    pub alloc_size: usize,
}

/// Why memory cannot be imported.
#[derive(Debug)]
pub enum ImportError {
    NotVulkan,
    NotEnabled { via: ImportVia },
    Unsupported,
    Misaligned { align: usize },
    PartialAllocation { align: usize },
    NoMemoryType,
    /// A call into the driver failed.
    Driver { step: &'static str, why: String },
}

impl ImportError {
    /// The message that a reader of the error sees.
    pub open spec fn text(&self) -> Seq<char> {
        match *self {
            ImportError::NotVulkan => "backend is not vulkan"@,
            ImportError::NotEnabled { via: ImportVia::HostPointer } =>
                "VK_EXT_external_memory_host supported but not enabled at device creation"@,
            ImportError::NotEnabled { via: ImportVia::HardwareBuffer } =>
                "VK_ANDROID_external_memory_android_hardware_buffer not enabled on device"@,
            ImportError::Unsupported => "VK_EXT_external_memory_host unsupported by this driver"@,
            ImportError::Misaligned { align } => "block not aligned to "@
                + crate::text::decimal_text(align as nat),
            ImportError::PartialAllocation { align } => "block allocation not a multiple of "@
                + crate::text::decimal_text(align as nat),
            ImportError::NoMemoryType => "no importable memory type"@,
            ImportError::Driver { step, why } => step@ + ": "@ + why@,
        }
    }

    /// Writes the message that a reader of the error sees.
    pub fn message(&self) -> (r: String)
        ensures
            r@ == self.text(),
    {
        match self {
            ImportError::NotVulkan => String::from_str("backend is not vulkan"),
            ImportError::NotEnabled { via: ImportVia::HostPointer } => String::from_str(
                "VK_EXT_external_memory_host supported but not enabled at device creation",
            ),
            ImportError::NotEnabled { via: ImportVia::HardwareBuffer } => String::from_str(
                "VK_ANDROID_external_memory_android_hardware_buffer not enabled on device",
            ),
            ImportError::Unsupported => String::from_str(
                "VK_EXT_external_memory_host unsupported by this driver",
            ),
            ImportError::Misaligned { align } => {
                let n = decimal(*align as u64);
                String::from_str("block not aligned to ").concat(n.as_str())
            },
            ImportError::PartialAllocation { align } => {
                let n = decimal(*align as u64);
                String::from_str("block allocation not a multiple of ").concat(n.as_str())
            },
            ImportError::NoMemoryType => String::from_str("no importable memory type"),
            ImportError::Driver { step, why } => String::from_str(step).concat(": ").concat(
                why.as_str(),
            ),
        }
    }
}

/// What the device says of itself.
#[derive(Debug, Clone, Copy, PartialEq, Eq, Structural)]
pub struct DeviceFacts {
    pub vulkan: bool,
    /// the extension was enabled when the device was created
    pub enabled: bool,
    /// the driver has the extension
    pub supported: bool,
    /// what addresses and sizes of host memory must be multiples of
    pub align: usize,
}

/// What keeps `block` from being imported on this device, if anything.
pub open spec fn obstacle(via: ImportVia, block: HostBlock, facts: DeviceFacts) -> Option<ImportError> {
    if !facts.vulkan {
        Some(ImportError::NotVulkan)
    } else if !facts.enabled {
        if via == ImportVia::HardwareBuffer || facts.supported {
            Some(ImportError::NotEnabled { via })
        } else {
            Some(ImportError::Unsupported)
        }
    } else if via == ImportVia::HardwareBuffer {
        None
    } else if facts.align == 0 || block.address % facts.align != 0 {
        Some(ImportError::Misaligned { align: facts.align })
    } else if block.alloc_size % facts.align != 0 {
        Some(ImportError::PartialAllocation { align: facts.align })
    } else {
        None
    }
}

/// Finds what keeps `block` from being imported. Tells "the driver cannot" from "nobody
/// asked": the first is the end of the road, the second a fault at device creation. A host
/// pointer also has to meet the device's alignment, in address and size.
pub fn find_obstacle(via: ImportVia, block: HostBlock, facts: DeviceFacts) -> (r: Option<
    ImportError,
>)
    ensures
        r == obstacle(via, block, facts),
{
    if !facts.vulkan {
        return Some(ImportError::NotVulkan);
    }
    if !facts.enabled {
        return if via == ImportVia::HardwareBuffer || facts.supported {
            Some(ImportError::NotEnabled { via })
        } else {
            Some(ImportError::Unsupported)
        };
    }
    if via == ImportVia::HardwareBuffer {
        return None;
    }
    if facts.align == 0 || block.address % facts.align != 0 {
        return Some(ImportError::Misaligned { align: facts.align });
    }
    if block.alloc_size % facts.align != 0 {
        return Some(ImportError::PartialAllocation { align: facts.align });
    }
    None
}

/// Memory properties wanted of an import: host-visible and host-coherent.
pub const WANTED: u32 = 0x6;

/// Vulkan has at most this many memory types.
pub const MEMORY_TYPES: u32 = 32;

/// Memory type `i` is among the allowed ones.
pub open spec fn is_allowed(type_bits: u32, i: u32) -> bool {
    type_bits & (1u32 << i) != 0
}

/// Memory type `i` is among the allowed ones and has the wanted properties.
pub open spec fn is_wanted(type_bits: u32, flags: Seq<u32>, i: u32) -> bool {
    is_allowed(type_bits, i) && flags[i as int] & WANTED == WANTED
}

/// `choice` is the first allowed of `count` memory types, if there is one.
pub open spec fn is_first_allowed(type_bits: u32, count: int, choice: Option<u32>) -> bool {
    match choice {
        Some(i) => {
            &&& i < count
            &&& is_allowed(type_bits, i)
            &&& forall|j: u32| j < i ==> !#[trigger] is_allowed(type_bits, j)
        },
        None => forall|j: u32| j < count ==> !#[trigger] is_allowed(type_bits, j),
    }
}

/// `choice` is the memory type to import into: the first one with the wanted properties,
/// else the first allowed one.
pub open spec fn is_choice(type_bits: u32, flags: Seq<u32>, choice: Option<u32>) -> bool {
    if exists|j: u32| j < flags.len() && #[trigger] is_wanted(type_bits, flags, j) {
        &&& choice matches Some(i)
        &&& i < flags.len()
        &&& is_wanted(type_bits, flags, i)
        &&& forall|j: u32| j < i ==> !#[trigger] is_wanted(type_bits, flags, j)
    } else {
        is_first_allowed(type_bits, flags.len() as int, choice)
    }
}

/// The first allowed memory type of `count`, if any.
pub fn first_memory_type(type_bits: u32, count: u32) -> (r: Option<u32>)
    requires
        count <= MEMORY_TYPES,
    ensures
        is_first_allowed(type_bits, count as int, r),
{
    let mut i: u32 = 0;
    while i < count
        invariant
            i <= count <= MEMORY_TYPES,
            forall|j: u32| j < i ==> !#[trigger] is_allowed(type_bits, j),
        decreases count - i,
    {
        if type_bits & (1u32 << i) != 0 {
            return Some(i);
        }
        i = i + 1;
    }
    None
}

/// The memory type to import into. `flags` holds the properties of each memory type.
pub fn choose_memory_type(type_bits: u32, flags: &[u32]) -> (r: Option<u32>)
    requires
        flags.len() <= MEMORY_TYPES,
    ensures
        is_choice(type_bits, flags@, r),
{
    let mut i: u32 = 0;
    while (i as usize) < flags.len()
        invariant
            i <= flags.len() <= MEMORY_TYPES,
            forall|j: u32| j < i ==> !#[trigger] is_wanted(type_bits, flags@, j),
        decreases flags.len() - i,
    {
        if type_bits & (1u32 << i) != 0 && flags[i as usize] & WANTED == WANTED {
            assert(is_wanted(type_bits, flags@, i));
            return Some(i);
        }
        i = i + 1;
    }
    first_memory_type(type_bits, flags.len() as u32)
}

/// How far an import has come.
#[derive(Debug, Clone, Copy, PartialEq, Eq, Structural)]
pub enum ImportStage {
    /// Waiting for what the device says of itself.
    Opened,
    /// Waiting for what the driver says of the block.
    Probing,
    /// Waiting for the buffer. The driver takes the block into these memory types, as an
    /// allocation of this size.
    Creating { type_bits: u32, size: u64 },
    /// Waiting for the memory; the buffer is there.
    Allocating,
    /// Waiting for the buffer to be bound to the memory; both are there.
    Binding,
    /// Done, with or without success.
    Closed,
}

/// What came back from the device.
#[derive(Debug)]
pub enum ImportEvent {
    Device { facts: DeviceFacts },
    /// The memory types that the driver takes the block into, and the size it gives the
    /// allocation (which counts for a hardware buffer only).
    Probed { taken: Result<(u32, u64), String> },
    /// The memory types that the buffer may lie in; the properties of each memory type.
    Created { allowed: Result<u32, String>, flags: Vec<u32> },
    Allocated { outcome: Result<(), String> },
    Bound { outcome: Result<(), String> },
}

/// What has to be released after a failed import.
#[derive(Debug, Clone, Copy, PartialEq, Eq, Structural)]
pub struct Cleanup {
    pub destroy_buffer: bool,
    pub free_memory: bool,
}

/// What has to be done next.
#[derive(Debug)]
pub enum ImportAction {
    /// Ask the driver about the block.
    Probe,
    /// Make a buffer of this size.
    Create { size: u64 },
    /// Allocate the block as memory of this type.
    Allocate { size: u64, memory_type: u32 },
    /// Bind the buffer to the memory.
    Bind,
    /// Hand the buffer over; it has this many usable bytes. From now on the device destroys the
    /// buffer, and the memory is freed after it.
    Adopt { usable: usize },
    /// Give up: release what has been made, and report the error.
    Abandon { cleanup: Cleanup, error: ImportError },
}

/// An import under way.
pub struct Import {
    via: ImportVia,
    block: HostBlock,
    stage: ImportStage,
}

/// What the driver calls are named in messages.
pub open spec fn probe_name(via: ImportVia) -> &'static str {
    match via {
        ImportVia::HostPointer => "host pointer properties",
        ImportVia::HardwareBuffer => "AHardwareBuffer properties",
    }
}

/// What the driver calls are named in messages.
pub open spec fn allocate_name(via: ImportVia) -> &'static str {
    match via {
        ImportVia::HostPointer => "allocate_memory(import)",
        ImportVia::HardwareBuffer => "allocate_memory(import AHB)",
    }
}

/// `action` gives up, releasing the buffer and the memory as said.
pub open spec fn abandons(
    action: Option<ImportAction>,
    destroy_buffer: bool,
    free_memory: bool,
    error: ImportError,
) -> bool {
    action == Some(
        ImportAction::Abandon { cleanup: Cleanup { destroy_buffer, free_memory }, error },
    )
}

/// On `event`, an import at `stage` goes on to `next` with `action`. An event that does not
/// belong to the stage changes nothing.
pub open spec fn is_step(
    via: ImportVia,
    block: HostBlock,
    stage: ImportStage,
    event: ImportEvent,
    next: ImportStage,
    action: Option<ImportAction>,
) -> bool {
    match (stage, event) {
        (ImportStage::Opened, ImportEvent::Device { facts }) => match obstacle(via, block, facts) {
            Some(error) => next == ImportStage::Closed && abandons(action, false, false, error),
            None => next == ImportStage::Probing && action == Some(ImportAction::Probe),
        },
        (ImportStage::Probing, ImportEvent::Probed { taken: Ok((type_bits, given)) }) => {
            let size = match via {
                ImportVia::HostPointer => block.alloc_size as u64,
                ImportVia::HardwareBuffer => given,
            };
            &&& next == ImportStage::Creating { type_bits, size }
            &&& action == Some(ImportAction::Create { size: block.alloc_size as u64 })
        },
        (ImportStage::Probing, ImportEvent::Probed { taken: Err(why) }) => {
            &&& next == ImportStage::Closed
            &&& abandons(
                action,
                false,
                false,
                ImportError::Driver { step: probe_name(via), why },
            )
        },
        (
            ImportStage::Creating { type_bits, size },
            ImportEvent::Created { allowed: Ok(buffer_bits), flags },
        ) => {
            let both = type_bits & buffer_bits;
            exists|choice: Option<u32>|
                {
                    &&& #[trigger] takes_type(via, both, flags@, choice)
                    &&& match choice {
                        Some(memory_type) => {
                            &&& next == ImportStage::Allocating
                            &&& action == Some(ImportAction::Allocate { size, memory_type })
                        },
                        None => {
                            &&& next == ImportStage::Closed
                            &&& abandons(action, true, false, ImportError::NoMemoryType)
                        },
                    }
                }
        },
        (ImportStage::Creating { .. }, ImportEvent::Created { allowed: Err(why), .. }) => {
            &&& next == ImportStage::Closed
            &&& abandons(
                action,
                false,
                false,
                ImportError::Driver { step: "create_buffer", why },
            )
        },
        (ImportStage::Allocating, ImportEvent::Allocated { outcome: Ok(_) }) => {
            next == ImportStage::Binding && action == Some(ImportAction::Bind)
        },
        (ImportStage::Allocating, ImportEvent::Allocated { outcome: Err(why) }) => {
            &&& next == ImportStage::Closed
            &&& abandons(
                action,
                true,
                false,
                ImportError::Driver { step: allocate_name(via), why },
            )
        },
        (ImportStage::Binding, ImportEvent::Bound { outcome: Ok(_) }) => {
            &&& next == ImportStage::Closed
            &&& action == Some(ImportAction::Adopt { usable: block.size })
        },
        (ImportStage::Binding, ImportEvent::Bound { outcome: Err(why) }) => {
            &&& next == ImportStage::Closed
            &&& abandons(
                action,
                true,
                true,
                ImportError::Driver { step: "bind_buffer_memory", why },
            )
        },
        _ => next == stage && action is None,
    }
}

/// `choice` is the memory type that the import goes into.
pub open spec fn takes_type(
    via: ImportVia,
    type_bits: u32,
    flags: Seq<u32>,
    choice: Option<u32>,
) -> bool {
    match via {
        ImportVia::HostPointer => is_choice(type_bits, flags, choice),
        ImportVia::HardwareBuffer => is_first_allowed(type_bits, MEMORY_TYPES as int, choice),
    }
}

fn give_up(destroy_buffer: bool, free_memory: bool, error: ImportError) -> (action: Option<
    ImportAction,
>)
    ensures
        abandons(action, destroy_buffer, free_memory, error),
{
    Some(ImportAction::Abandon { cleanup: Cleanup { destroy_buffer, free_memory }, error })
}

impl Import {
    pub closed spec fn via(&self) -> ImportVia {
        self.via
    }

    pub closed spec fn block(&self) -> HostBlock {
        self.block
    }

    pub closed spec fn stage(&self) -> ImportStage {
        self.stage
    }

    /// Starts an import. The first thing needed is what the device says of itself.
    pub fn open(via: ImportVia, block: HostBlock) -> (import: Self)
        ensures
            import.via() == via,
            import.block() == block,
            import.stage() == ImportStage::Opened,
    {
        Import { via, block, stage: ImportStage::Opened }
    }

    /// Takes what came back from the device, and says what has to be done next.
    pub fn step(&mut self, event: ImportEvent) -> (action: Option<ImportAction>)
        requires
            event matches ImportEvent::Created { flags, .. } ==> flags.len() <= MEMORY_TYPES,
        ensures
            final(self).via() == old(self).via(),
            final(self).block() == old(self).block(),
            is_step(
                old(self).via(),
                old(self).block(),
                old(self).stage(),
                event,
                final(self).stage(),
                action,
            ),
    {
        let stage = self.stage;
        match (stage, event) {
            (ImportStage::Opened, ImportEvent::Device { facts }) => {
                match find_obstacle(self.via, self.block, facts) {
                    Some(error) => {
                        self.stage = ImportStage::Closed;
                        give_up(false, false, error)
                    },
                    None => {
                        self.stage = ImportStage::Probing;
                        Some(ImportAction::Probe)
                    },
                }
            },
            (ImportStage::Probing, ImportEvent::Probed { taken }) => {
                match taken {
                    Ok((type_bits, given)) => {
                        let size: u64 = match self.via {
                            ImportVia::HostPointer => self.block.alloc_size as u64,
                            ImportVia::HardwareBuffer => given,
                        };
                        self.stage = ImportStage::Creating { type_bits, size };
                        Some(ImportAction::Create { size: self.block.alloc_size as u64 })
                    },
                    Err(why) => {
                        self.stage = ImportStage::Closed;
                        let step = match self.via {
                            ImportVia::HostPointer => "host pointer properties",
                            ImportVia::HardwareBuffer => "AHardwareBuffer properties",
                        };
                        give_up(false, false, ImportError::Driver { step, why })
                    },
                }
            },
            (ImportStage::Creating { type_bits, size }, ImportEvent::Created { allowed, flags }) => {
                match allowed {
                    Ok(buffer_bits) => {
                        let both: u32 = type_bits & buffer_bits;
                        let choice: Option<u32> = match self.via {
                            ImportVia::HostPointer => choose_memory_type(both, flags.as_slice()),
                            ImportVia::HardwareBuffer => first_memory_type(both, MEMORY_TYPES),
                        };
                        assert(takes_type(self.via, both, flags@, choice));
                        match choice {
                            Some(memory_type) => {
                                self.stage = ImportStage::Allocating;
                                Some(ImportAction::Allocate { size, memory_type })
                            },
                            None => {
                                self.stage = ImportStage::Closed;
                                give_up(true, false, ImportError::NoMemoryType)
                            },
                        }
                    },
                    Err(why) => {
                        self.stage = ImportStage::Closed;
                        give_up(false, false, ImportError::Driver { step: "create_buffer", why })
                    },
                }
            },
            (ImportStage::Allocating, ImportEvent::Allocated { outcome }) => {
                match outcome {
                    Ok(_) => {
                        self.stage = ImportStage::Binding;
                        Some(ImportAction::Bind)
                    },
                    Err(why) => {
                        self.stage = ImportStage::Closed;
                        let step = match self.via {
                            ImportVia::HostPointer => "allocate_memory(import)",
                            ImportVia::HardwareBuffer => "allocate_memory(import AHB)",
                        };
                        give_up(true, false, ImportError::Driver { step, why })
                    },
                }
            },
            (ImportStage::Binding, ImportEvent::Bound { outcome }) => {
                self.stage = ImportStage::Closed;
                match outcome {
                    Ok(_) => Some(ImportAction::Adopt { usable: self.block.size }),
                    Err(why) => give_up(
                        true,
                        true,
                        ImportError::Driver { step: "bind_buffer_memory", why },
                    ),
                }
            },
            _ => None,
        }
    }
}

/// The buffer is there once `event` has come in at `stage`.
pub open spec fn has_buffer(stage: ImportStage, event: ImportEvent) -> bool {
    ||| stage == ImportStage::Allocating
    ||| stage == ImportStage::Binding
    ||| event matches ImportEvent::Created { allowed: Ok(_), .. }
}

/// The memory is there once `event` has come in at `stage`.
pub open spec fn has_memory(stage: ImportStage, event: ImportEvent) -> bool {
    ||| stage == ImportStage::Binding
    ||| event matches ImportEvent::Allocated { outcome: Ok(_) }
}

/// Law: an import that is given up releases everything it has made and nothing else, and is
/// over; one that succeeds has made both the buffer and the memory.
pub proof fn law_imports_leak_nothing(
    via: ImportVia,
    block: HostBlock,
    stage: ImportStage,
    event: ImportEvent,
    next: ImportStage,
    action: Option<ImportAction>,
)
    requires
        is_step(via, block, stage, event, next, action),
    ensures
        action matches Some(ImportAction::Abandon { cleanup, .. }) ==> {
            &&& cleanup.destroy_buffer == has_buffer(stage, event)
            &&& cleanup.free_memory == has_memory(stage, event)
            &&& next == ImportStage::Closed
        },
        action matches Some(ImportAction::Adopt { .. }) ==> {
            &&& has_buffer(stage, event)
            &&& has_memory(stage, event)
            &&& next == ImportStage::Closed
        },
{
}

/// Law: an import that is over stays over, whatever comes in.
pub proof fn law_imports_end_once(
    via: ImportVia,
    block: HostBlock,
    event: ImportEvent,
    next: ImportStage,
    action: Option<ImportAction>,
)
    requires
        is_step(via, block, ImportStage::Closed, event, next, action),
    ensures
        next == ImportStage::Closed,
        action is None,
{
}

/// Law: uniform data is padded to a multiple of 16 bytes, by fewer than 16.
pub proof fn law_padding_is_least(len: nat)
    ensures
        padded_len(len) % 16 == 0,
        len <= padded_len(len) < len + 16,
{
}

/// Law: without a group size every thread is a group of its own, and no threads need no group.
pub proof fn law_threads_make_groups(grid: nat, group: nat)
    ensures
        group_count(grid, 0) == grid,
        group_count(grid, 1) == grid,
        group_count(0, group) == 0,
{
    if group > 0 {
        vstd::arithmetic::div_mod::lemma_div_basics(group as int);
        vstd::arithmetic::div_mod::lemma_small_mod(0, group);
    }
}

/// Law: a block can be imported exactly where the device is a Vulkan one with the extension
/// enabled and, for a host pointer, both the block's address and its allocated size are multiples
/// of the device's alignment.
pub proof fn law_importable_blocks(via: ImportVia, block: HostBlock, facts: DeviceFacts)
    ensures
        obstacle(via, block, facts) is None <==> facts.vulkan && facts.enabled && (via
            == ImportVia::HardwareBuffer || (facts.align != 0 && block.address % facts.align == 0
            && block.alloc_size % facts.align == 0)),
{
}

/// Law: what is named as the obstacle is the first of these that holds: another backend, the
/// extension not enabled though the driver has it, the driver without it, an address and a size
/// that do not meet the alignment.
pub proof fn law_obstacles_are_told_apart(via: ImportVia, block: HostBlock, facts: DeviceFacts)
    ensures
        ({
            let found = obstacle(via, block, facts);
            &&& !facts.vulkan <==> found == Some(ImportError::NotVulkan)
            &&& facts.vulkan && !facts.enabled && (facts.supported || via
                == ImportVia::HardwareBuffer) <==> found == Some(ImportError::NotEnabled { via })
            &&& facts.vulkan && !facts.enabled && !facts.supported && via
                == ImportVia::HostPointer <==> found == Some(ImportError::Unsupported)
            &&& facts.vulkan && facts.enabled && via == ImportVia::HostPointer && (facts.align == 0
                || block.address % facts.align != 0) <==> found == Some(
                ImportError::Misaligned { align: facts.align },
            )
            &&& facts.vulkan && facts.enabled && via == ImportVia::HostPointer && facts.align != 0
                && block.address % facts.align == 0 && block.alloc_size % facts.align != 0
                <==> found == Some(ImportError::PartialAllocation { align: facts.align })
        }),
{
}

/// Law: memory type `i` is allowed where bit `i` is set, and wanted where its properties also have
/// both the bit of host-visible and that of host-coherent memory.
pub proof fn law_types_go_by_bits(type_bits: u32, flags: Seq<u32>, i: u32)
    requires
        i < 32,
        i < flags.len(),
    ensures
        is_allowed(type_bits, i) <==> (type_bits >> i) % 2 == 1,
        is_wanted(type_bits, flags, i) <==> is_allowed(type_bits, i) && (flags[i as int] / 2) % 2
            == 1 && (flags[i as int] / 4) % 2 == 1,
{
    let f = flags[i as int];
    assert(type_bits & (1u32 << i) != 0 <==> (type_bits >> i) % 2 == 1) by (bit_vector)
        requires
            i < 32,
    ;
    assert(f & 0x6 == 0x6 <==> (f / 2) % 2 == 1 && (f / 4) % 2 == 1) by (bit_vector);
}

/// Law: a memory type is chosen exactly where one is allowed; the chosen one is allowed, no wanted
/// one comes before it, and it is itself wanted unless none is, in which case no allowed one comes
/// before it.
pub proof fn law_wanted_types_are_preferred(
    type_bits: u32,
    flags: Seq<u32>,
    choice: Option<u32>,
    j: u32,
)
    requires
        is_choice(type_bits, flags, choice),
        j < flags.len(),
    ensures
        is_allowed(type_bits, j) ==> choice is Some,
        choice matches Some(i) ==> {
            &&& i < flags.len()
            &&& is_allowed(type_bits, i)
            &&& is_wanted(type_bits, flags, j) ==> i <= j && is_wanted(type_bits, flags, i)
            &&& is_allowed(type_bits, j) && j < i ==> is_wanted(type_bits, flags, i) && !is_wanted(
                type_bits,
                flags,
                j,
            )
        },
{
}

/// Law: an import that meets no failure asks the driver about the block, makes a buffer for all
/// that was allocated, allocates the block, which is as large as the driver says of a hardware
/// buffer and as was allocated of a host pointer, binds the two, and hands over as many bytes as
/// the owner asked for.
pub proof fn law_imports_run_through(
    via: ImportVia,
    block: HostBlock,
    stage: ImportStage,
    event: ImportEvent,
    next: ImportStage,
    action: Option<ImportAction>,
)
    requires
        is_step(via, block, stage, event, next, action),
        !(action matches Some(ImportAction::Abandon { .. })),
    ensures
        action is None <==> next == stage,
        action matches Some(ImportAction::Probe) ==> stage == ImportStage::Opened && next
            == ImportStage::Probing,
        action matches Some(ImportAction::Create { size }) ==> {
            &&& stage == ImportStage::Probing
            &&& size == block.alloc_size
            &&& next matches ImportStage::Creating { type_bits, size: allocated }
            &&& event matches ImportEvent::Probed { taken: Ok((bits, given)) }
            &&& type_bits == bits
            &&& allocated == if via == ImportVia::HostPointer {
                block.alloc_size as u64
            } else {
                given
            }
        },
        action matches Some(ImportAction::Allocate { size, memory_type }) ==> {
            &&& stage matches ImportStage::Creating { type_bits, size: allocated }
            &&& event matches ImportEvent::Created { allowed: Ok(buffer_bits), .. }
            &&& size == allocated
            &&& is_allowed(type_bits & buffer_bits, memory_type)
            &&& next == ImportStage::Allocating
        },
        action matches Some(ImportAction::Bind) ==> stage == ImportStage::Allocating && next
            == ImportStage::Binding,
        action matches Some(ImportAction::Adopt { usable }) ==> usable == block.size && stage
            == ImportStage::Binding && next == ImportStage::Closed,
{
}

/// Law: a failure of the driver ends the import with the driver's own words.
pub proof fn law_driver_failures_are_reported(
    via: ImportVia,
    block: HostBlock,
    stage: ImportStage,
    why: String,
    event: ImportEvent,
    next: ImportStage,
    action: Option<ImportAction>,
)
    requires
        is_step(via, block, stage, event, next, action),
        (stage == ImportStage::Probing && event == (ImportEvent::Probed { taken: Err(why) })) || (
        stage == ImportStage::Allocating && event == (ImportEvent::Allocated { outcome: Err(why) }))
            || (stage == ImportStage::Binding && event == (ImportEvent::Bound {
            outcome: Err(why),
        })) || (stage is Creating && (event matches ImportEvent::Created {
            allowed: Err(told),
            ..
        } && told == why)),
    ensures
        next == ImportStage::Closed,
        action matches Some(ImportAction::Abandon { error: ImportError::Driver { why: told, .. }, .. })
            && told == why,
{
}

/// Law: a hardware buffer goes into the first of the 32 memory types that is allowed, whatever its
/// properties, and into none only where none is.
pub proof fn law_hardware_buffers_take_the_first_type(
    type_bits: u32,
    flags: Seq<u32>,
    choice: Option<u32>,
    j: u32,
)
    requires
        takes_type(ImportVia::HardwareBuffer, type_bits, flags, choice),
        j < 32,
    ensures
        is_allowed(type_bits, j) ==> choice is Some && choice.unwrap() <= j,
        choice matches Some(i) ==> i < 32 && is_allowed(type_bits, i),
{
}

} // verus!
