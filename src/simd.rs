//! Instruction-set selection and word-wise pixel comparison.
use vstd::prelude::*;

verus! {

/// An instruction set the comparison can run on.
#[derive(Debug, Clone, Copy, PartialEq, Eq, Structural)]
pub enum SimdBackend {
    Scalar,
    Sse41,
    Avx2,
    Avx512,
    Neon,
}

/// How many pixels one lane of a backend holds.
pub open spec fn lanes_of(backend: SimdBackend) -> usize {
    match backend {
        SimdBackend::Scalar => 4,
        SimdBackend::Sse41 => 4,
        SimdBackend::Avx2 => 8,
        SimdBackend::Avx512 => 16,
        SimdBackend::Neon => 4,
    }
}

/// The backend the comparison runs on. The engine of this library is
/// written without vector intrinsics, so it is always `Scalar`.
pub fn detect_backend() -> (r: SimdBackend)
    ensures
        r == SimdBackend::Scalar,
{
    SimdBackend::Scalar
}

/// The lane width of the detected backend.
pub fn lane_count() -> (r: usize)
    ensures
        r == lanes_of(SimdBackend::Scalar),
        r == 4,
{
    match detect_backend() {
        SimdBackend::Scalar => 4,
        SimdBackend::Sse41 => 4,
        SimdBackend::Avx2 => 8,
        SimdBackend::Avx512 => 16,
        SimdBackend::Neon => 4,
    }
}

/// Whether two pixel runs of equal length differ in any word. Full lanes of
/// four words are compared together, the remainder one by one.
pub fn compare_pixels(a: &[u32], b: &[u32]) -> (r: bool)
    requires
        a@.len() == b@.len(),
    ensures
        r == exists|i: int| 0 <= i < a@.len() && a@[i] != b@[i],
{
    let n = a.len();
    let mut i: usize = 0;
    while n - i >= 4
        invariant
            n == a@.len(),
            n == b@.len(),
            i <= n,
            forall|j: int| 0 <= j < i ==> a@[j] == b@[j],
        decreases n - i,
    {
        if a[i] != b[i] || a[i + 1] != b[i + 1] || a[i + 2] != b[i + 2] || a[i + 3] != b[i + 3] {
            return true;
        }
        i = i + 4;
    }
    compare_pixels_scalar(a, b, i)
}

/// Whether two pixel runs of equal length differ in a word at or after
/// `start`, given that they agree before it.
fn compare_pixels_scalar(a: &[u32], b: &[u32], start: usize) -> (r: bool)
    requires
        a@.len() == b@.len(),
        start <= a@.len(),
        forall|j: int| 0 <= j < start ==> a@[j] == b@[j],
    ensures
        r == exists|i: int| 0 <= i < a@.len() && a@[i] != b@[i],
{
    let n = a.len();
    let mut i = start;
    while i < n
        invariant
            n == a@.len(),
            n == b@.len(),
            start <= i <= n,
            forall|j: int| 0 <= j < i ==> a@[j] == b@[j],
        decreases n - i,
    {
        if a[i] != b[i] {
            return true;
        }
        i = i + 1;
    }
    false
}

} // verus!
