use vstd::prelude::*;

verus! {

/// Status codes returned by the TensorFlow Lite C API.
#[allow(non_camel_case_types)]
#[derive(Clone, Copy, PartialEq, Eq, Debug, Structural)]
pub enum TfLiteStatus {
    kTfLiteOk,
    kTfLiteError,
    kTfLiteDelegateError,
    kTfLiteApplicationError,
    kTfLiteDelegateDataNotFound,
    kTfLiteDelegateDataWriteError,
    kTfLiteDelegateDataReadError,
    kTfLiteUnresolvedOps,
    kTfLiteCancelled,
}

/// Errors reported by TensorFlow Lite and the Edge TPU runtime.
#[derive(Clone, Copy, PartialEq, Eq, Debug, Structural)]
pub enum Error {
    Cancelled,
    Error,
    DelegateError,
    UnresolvedOps,
    ApplicationError,
    DelegateDataNotFound,
    DelegateDataReadError,
    DelegateDataWriteError,
    FailedToCreateInterpreter,
    FailedToLoadModel,
}

/// The error a non-`Ok` status stands for.
pub open spec fn status_error(status: TfLiteStatus) -> Error {
    match status {
        TfLiteStatus::kTfLiteOk => Error::Error,
        TfLiteStatus::kTfLiteCancelled => Error::Cancelled,
        TfLiteStatus::kTfLiteError => Error::Error,
        TfLiteStatus::kTfLiteDelegateError => Error::DelegateError,
        TfLiteStatus::kTfLiteUnresolvedOps => Error::UnresolvedOps,
        TfLiteStatus::kTfLiteApplicationError => Error::ApplicationError,
        TfLiteStatus::kTfLiteDelegateDataNotFound => Error::DelegateDataNotFound,
        TfLiteStatus::kTfLiteDelegateDataReadError => Error::DelegateDataReadError,
        TfLiteStatus::kTfLiteDelegateDataWriteError => Error::DelegateDataWriteError,
    }
}

impl Error {
    /// Turn a TensorFlow Lite status into a `Result`.
    pub fn from(status: TfLiteStatus) -> (r: Result<(), Error>)
        ensures
            r is Ok <==> status == TfLiteStatus::kTfLiteOk,
            status != TfLiteStatus::kTfLiteOk ==> r == Err::<(), Error>(status_error(status)),
    {
        match status {
            TfLiteStatus::kTfLiteOk => Ok(()),
            TfLiteStatus::kTfLiteCancelled => Err(Error::Cancelled),
            TfLiteStatus::kTfLiteError => Err(Error::Error),
            TfLiteStatus::kTfLiteDelegateError => Err(Error::DelegateError),
            TfLiteStatus::kTfLiteUnresolvedOps => Err(Error::UnresolvedOps),
            TfLiteStatus::kTfLiteApplicationError => Err(Error::ApplicationError),
            TfLiteStatus::kTfLiteDelegateDataNotFound => Err(Error::DelegateDataNotFound),
            TfLiteStatus::kTfLiteDelegateDataReadError => Err(Error::DelegateDataReadError),
            TfLiteStatus::kTfLiteDelegateDataWriteError => Err(Error::DelegateDataWriteError),
        }
    }
}

/// Device types reported by the Edge TPU runtime.
#[allow(non_camel_case_types)]
#[derive(Clone, Copy, PartialEq, Eq, Debug, Structural)]
pub enum EdgeTpuDeviceType {
    EDGETPU_APEX_PCI,
    EDGETPU_APEX_USB,
}

/// Represents the type of Coral device.
#[derive(Clone, Copy, PartialEq, Eq, Debug, Structural)]
pub enum CoralDeviceKind {
    /// A Coral device connected via USB.
    Usb,
    /// A Coral device installed on a PCI slot.
    Pci,
}

/// The kind of device a runtime device type stands for.
pub open spec fn kind_of(ty: EdgeTpuDeviceType) -> CoralDeviceKind {
    match ty {
        EdgeTpuDeviceType::EDGETPU_APEX_USB => CoralDeviceKind::Usb,
        EdgeTpuDeviceType::EDGETPU_APEX_PCI => CoralDeviceKind::Pci,
    }
}

impl CoralDeviceKind {
    /// Converts the runtime's device type to the `CoralDeviceKind` enum.
    fn from(ty: EdgeTpuDeviceType) -> (k: Self)
        ensures
            k == kind_of(ty),
    {
        match ty {
            EdgeTpuDeviceType::EDGETPU_APEX_USB => Self::Usb,
            EdgeTpuDeviceType::EDGETPU_APEX_PCI => Self::Pci,
        }
    }
}

/// A Coral Edge TPU device: its type and its system path.
pub struct CoralDevice {
    ty: EdgeTpuDeviceType,
    path: String,
}

impl CoralDevice {
    /// The runtime device type.
    pub closed spec fn type_spec(&self) -> EdgeTpuDeviceType {
        self.ty
    }

    /// The system path of the device.
    pub closed spec fn path_spec(&self) -> Seq<char> {
        self.path@
    }

    /// A device as the runtime lists it.
    pub fn new(ty: EdgeTpuDeviceType, path: String) -> (d: Self)
        ensures
            d.type_spec() == ty,
            d.path_spec() == path@,
    {
        CoralDevice { ty, path }
    }

    /// Returns the type of the Coral device.
    pub fn kind(&self) -> (k: CoralDeviceKind)
        ensures
            k == kind_of(self.type_spec()),
    {
        CoralDeviceKind::from(self.ty)
    }

    /// Returns the system path of the Coral device.
    pub fn path(&self) -> (p: &str)
        ensures
            p@ == self.path_spec(),
    {
        self.path.as_str()
    }
}

/// An iterator over available Coral Edge TPU devices.
pub struct CoralDeviceList {
    devices: Vec<CoralDevice>,
    curr: usize,
}

impl CoralDeviceList {
    /// The devices of the list, as (type, path) pairs.
    pub closed spec fn devices_spec(&self) -> Seq<(EdgeTpuDeviceType, Seq<char>)> {
        self.devices@.map_values(|d: CoralDevice| (d.type_spec(), d.path_spec()))
    }

    /// Index of the next device to hand out.
    pub closed spec fn position(&self) -> nat {
        self.curr as nat
    }

    /// A list over `devices`, positioned at the first one.
    pub fn new(devices: Vec<CoralDevice>) -> (l: Self)
        ensures
            l.devices_spec() == devices@.map_values(
                |d: CoralDevice| (d.type_spec(), d.path_spec()),
            ),
            l.position() == 0,
    {
        CoralDeviceList { devices, curr: 0 }
    }

    /// The next device, or `None` past the end of the list.
    pub fn next(&mut self) -> (d: Option<CoralDevice>)
        ensures
            final(self).devices_spec() == old(self).devices_spec(),
            old(self).position() < old(self).devices_spec().len() ==> {
                &&& d is Some
                &&& d->0.type_spec() == old(self).devices_spec()[old(self).position() as int].0
                &&& d->0.path_spec() == old(self).devices_spec()[old(self).position() as int].1
                &&& final(self).position() == old(self).position() + 1
            },
            old(self).position() >= old(self).devices_spec().len() ==> {
                &&& d is None
                &&& final(self).position() == old(self).position()
            },
    {
        // Check if we're past the end of the device list
        if self.curr >= self.devices.len() {
            return None;
        }
        let dev = &self.devices[self.curr];
        let d = CoralDevice { ty: dev.ty, path: dev.path.clone() };
        // Increment the counter to the next device
        self.curr = self.curr + 1;
        Some(d)
    }

    /// Number of devices not handed out yet; consumes the list, as counting an iterator does.
    pub fn count(self) -> (n: usize)
        ensures
            n == if self.position() < self.devices_spec().len() {
                self.devices_spec().len() - self.position()
            } else {
                0
            },
    {
        if self.curr < self.devices.len() {
            self.devices.len() - self.curr
        } else {
            0
        }
    }
}

/// Number of dimensions of a tensor, from the raw count the runtime reports: `None` for an
/// opaque tensor (reported as -1).
pub fn tensor_num_dims(raw: i32) -> (n: Option<u32>)
    ensures
        raw == -1 ==> n is None,
        raw != -1 ==> n == Some(raw as u32),
{
    if raw == -1 {
        return None;
    }
    Some(raw as u32)
}

/// Number of whole chunks of `chunk_bytes` bytes in a tensor of `byte_size` bytes.
pub fn tensor_chunk_count(byte_size: usize, chunk_bytes: usize) -> (n: usize)
    requires
        chunk_bytes > 0,
    ensures
        n == byte_size / chunk_bytes,
{
    byte_size / chunk_bytes
}

/// Marker struct for input tensors
pub struct Input;

/// Marker struct for output tensors
pub struct Output;

/// Element types a tensor buffer can hold, each with its zero value.
pub trait InnerTensorData: Copy + Sized {
    /// The zero value of the type.
    spec fn zero_spec() -> Self;

    /// An element takes at least one byte.
    proof fn lemma_size_positive()
        ensures
            vstd::layout::size_of::<Self>() > 0,
    ;

    /// The zero value of the type.
    fn zero() -> (z: Self)
        ensures
            z == Self::zero_spec(),
    ;
}

impl InnerTensorData for i8 {
    open spec fn zero_spec() -> Self {
        0
    }

    proof fn lemma_size_positive() {
        broadcast use vstd::layout::layout_of_primitives;
    }

    fn zero() -> (z: Self) {
        0
    }
}

impl InnerTensorData for i16 {
    open spec fn zero_spec() -> Self {
        0
    }

    proof fn lemma_size_positive() {
        broadcast use vstd::layout::layout_of_primitives;
    }

    fn zero() -> (z: Self) {
        0
    }
}

impl InnerTensorData for i32 {
    open spec fn zero_spec() -> Self {
        0
    }

    proof fn lemma_size_positive() {
        broadcast use vstd::layout::layout_of_primitives;
    }

    fn zero() -> (z: Self) {
        0
    }
}

impl InnerTensorData for i64 {
    open spec fn zero_spec() -> Self {
        0
    }

    proof fn lemma_size_positive() {
        broadcast use vstd::layout::layout_of_primitives;
    }

    fn zero() -> (z: Self) {
        0
    }
}

impl InnerTensorData for u8 {
    open spec fn zero_spec() -> Self {
        0
    }

    proof fn lemma_size_positive() {
        broadcast use vstd::layout::layout_of_primitives;
    }

    fn zero() -> (z: Self) {
        0
    }
}

impl InnerTensorData for u16 {
    open spec fn zero_spec() -> Self {
        0
    }

    proof fn lemma_size_positive() {
        broadcast use vstd::layout::layout_of_primitives;
    }

    fn zero() -> (z: Self) {
        0
    }
}

impl InnerTensorData for u32 {
    open spec fn zero_spec() -> Self {
        0
    }

    proof fn lemma_size_positive() {
        broadcast use vstd::layout::layout_of_primitives;
    }

    fn zero() -> (z: Self) {
        0
    }
}

impl InnerTensorData for u64 {
    open spec fn zero_spec() -> Self {
        0
    }

    proof fn lemma_size_positive() {
        broadcast use vstd::layout::layout_of_primitives;
    }

    fn zero() -> (z: Self) {
        0
    }
}

/// A buffer of tensor data.
pub struct TensorData<T: InnerTensorData> {
    size: usize,
    data: Vec<T>,
}

impl<T: InnerTensorData> TensorData<T> {
    /// Size of the buffer in bytes, as it was made.
    pub closed spec fn size_spec(&self) -> nat {
        self.size as nat
    }

    /// Contents of the buffer.
    pub closed spec fn contents(&self) -> Seq<T> {
        self.data@
    }

    /// Create a new [`TensorData`] buffer of `size` bytes, all zero: it holds
    /// `size / size_of::<T>()` elements.
    pub fn new(size: usize) -> (t: Self)
        requires
            size as nat % vstd::layout::size_of::<T>() == 0,
        ensures
            t.size_spec() == size,
            t.contents() == Seq::new(
                (size as nat / vstd::layout::size_of::<T>()) as nat,
                |i: int| T::zero_spec(),
            ),
            t.contents().len() * vstd::layout::size_of::<T>() == size,
    {
        proof {
            T::lemma_size_positive();
        }
        let elem = core::mem::size_of::<T>();
        let n = size / elem;
        proof {
            assert(n * elem == size) by (nonlinear_arith)
                requires
                    elem > 0,
                    size % elem == 0,
                    n == size / elem,
            ;
        }
        let mut data: Vec<T> = Vec::with_capacity(n);
        let mut i: usize = 0;
        while i < n
            invariant
                i <= n,
                data@ == Seq::new(i as nat, |k: int| T::zero_spec()),
            decreases n - i,
        {
            data.push(T::zero());
            proof {
                assert(data@ =~= Seq::new((i + 1) as nat, |k: int| T::zero_spec()));
            }
            i = i + 1;
        }
        TensorData { size, data }
    }

    /// Tensor data as a slice.
    pub fn as_slice(&self) -> (s: &[T])
        ensures
            s@ == self.contents(),
    {
        self.data.as_slice()
    }
}

} // verus!
